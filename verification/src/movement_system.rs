//! The kinematics system: every tick it advances each entity that has a
//! current position, a target position and a velocity by one bounded step
//! per axis toward the target. The step is not clamped to the remaining
//! distance: a velocity larger than the distance overshoots and the
//! entity oscillates around the target instead of converging.

use vstd::prelude::*;

use crate::world::World;

verus! {

/// The absolute value of `d`.
pub open spec fn abs_val(d: int) -> int {
    if d < 0 {
        -d
    } else {
        d
    }
}

/// The sign of `d`: -1, 0 or 1.
pub open spec fn sign(d: int) -> int {
    if d < 0 {
        -1
    } else if d == 0 {
        0
    } else {
        1
    }
}

/// One axis of a kinematics step: from `cur` toward `tgt` by the full
/// step `sp`, unclamped; an axis whose remaining distance is zero rests.
pub open spec fn step_axis_spec(cur: int, tgt: int, sp: int) -> int {
    let d = tgt - cur;
    if d == 0 {
        cur
    } else if d < 0 {
        cur - sp
    } else {
        cur + sp
    }
}

/// Whether entity `id` carries all three kinematics components.
pub open spec fn movable(w: World, id: u64) -> bool {
    w.start_of(id) is Some && w.end_of(id) is Some && w.vel_of(id) is Some
}

/// The x coordinate a movable entity steps to.
pub open spec fn stepped_x(w: World, id: u64) -> int {
    step_axis_spec(
        w.start_of(id)->Some_0.point.x as int,
        w.end_of(id)->Some_0.point.x as int,
        w.vel_of(id)->Some_0.x as int,
    )
}

/// The y coordinate a movable entity steps to.
pub open spec fn stepped_y(w: World, id: u64) -> int {
    step_axis_spec(
        w.start_of(id)->Some_0.point.y as int,
        w.end_of(id)->Some_0.point.y as int,
        w.vel_of(id)->Some_0.y as int,
    )
}

/// The kinematics arithmetic stays within `i64` for every movable
/// entity: the remaining distances, the step magnitudes and the stepped
/// coordinates all fit. A machine limit only; any values that fit are
/// allowed.
pub open spec fn movement_safe(w: World) -> bool {
    forall|id: u64| #[trigger] movable(w, id) ==> movement_safe_for(w, id)
}

/// The `i64` bounds for one movable entity.
pub open spec fn movement_safe_for(w: World, id: u64) -> bool {
    let cur = w.start_of(id)->Some_0.point;
    let tgt = w.end_of(id)->Some_0.point;
    let sp = w.vel_of(id)->Some_0;
    &&& i64::MIN <= tgt.x - cur.x <= i64::MAX
    &&& i64::MIN <= tgt.y - cur.y <= i64::MAX
    &&& sp.x <= i64::MAX
    &&& sp.y <= i64::MAX
    &&& i64::MIN <= stepped_x(w, id) <= i64::MAX
    &&& i64::MIN <= stepped_y(w, id) <= i64::MAX
}

/// How one kinematics tick relates the world before (`w0`) and after
/// (`w1`): every movable entity's current position has taken one step
/// per axis, everything else is untouched.
pub open spec fn movement_rel(w0: World, w1: World) -> bool {
    &&& w1.registry == w0.registry
    &&& w1.end_positions == w0.end_positions
    &&& w1.velocities == w0.velocities
    &&& w1.inventories == w0.inventories
    &&& w1.world_map == w0.world_map
    &&& w1.same_registration(w0)
    &&& forall|id: u64| #![trigger w1.start_of(id)] stepped_ok(w0, w1, id)
}

/// Whether, in `w1`, the entity `id` has been processed by a kinematics
/// tick that started from `w0`.
pub open spec fn stepped_ok(w0: World, w1: World, id: u64) -> bool {
    if movable(w0, id) {
        &&& w1.start_of(id) matches Some(v)
        &&& v.point.x == stepped_x(w0, id)
        &&& v.point.y == stepped_y(w0, id)
    } else {
        w1.start_of(id) == w0.start_of(id)
    }
}

/// Run one kinematics tick over every entity of the world.
pub fn movement_tick(world: &mut World)
    requires
        old(world).wf(),
        movement_safe(*old(world)),
    ensures
        final(world).wf(),
        movement_rel(*old(world), *final(world)),
{
    let n = world.registry.live_count();
    let mut i: usize = 0;
    while i < n
        invariant
            world.wf(),
            old(world).wf(),
            movement_safe(*old(world)),
            n == old(world).live().len(),
            0 <= i <= n,
            world.registry == old(world).registry,
            world.end_positions == old(world).end_positions,
            world.velocities == old(world).velocities,
            world.inventories == old(world).inventories,
            world.world_map == old(world).world_map,
            world.same_registration(*old(world)),
            forall|k: int| 0 <= k < i ==> stepped_ok(*old(world), *world, old(world).live()[k]),
            forall|k: int|
                i <= k < n ==> world.start_of(old(world).live()[k]) == old(world).start_of(
                    old(world).live()[k],
                ),
            forall|id: u64| !old(world).is_live(id) ==> world.start_of(id) == old(world).start_of(
                id,
            ),
        decreases n - i,
    {
        let id = world.registry.live_at(i);
        proof {
            assert(world.live() == old(world).live());
            assert(world.start_of(id) == old(world).start_of(id));
        }
        let cur_opt = match world.start_positions.get(id) {
            Some(c) => Some(*c),
            None => None,
        };
        let tgt_opt = match world.end_positions.get(id) {
            Some(c) => Some(*c),
            None => None,
        };
        let vel_opt = match world.velocities.get(id) {
            Some(c) => Some(*c),
            None => None,
        };
        if let (Some(cur), Some(tgt), Some(vel)) = (cur_opt, tgt_opt, vel_opt) {
            proof {
                assert(movable(*old(world), id));
                assert(movement_safe_for(*old(world), id));
            }
            let mut moved = cur;
            let x_delta = tgt.point.x - cur.point.x;
            let y_delta = tgt.point.y - cur.point.y;
            let x_step: i64 = if x_delta < 0 {
                -(vel.x as i64)
            } else {
                vel.x as i64
            };
            let y_step: i64 = if y_delta < 0 {
                -(vel.y as i64)
            } else {
                vel.y as i64
            };
            if x_delta != 0 {
                moved.point.append_x(x_step);
            }
            if y_delta != 0 {
                moved.point.append_y(y_step);
            }
            proof {
                assert(moved.point.x == stepped_x(*old(world), id));
                assert(moved.point.y == stepped_y(*old(world), id));
            }
            let ghost pre = *world;
            world.start_positions.insert(id, moved);
            proof {
                assert(forall|e: u64|
                    e != id ==> world.start_of(e) == pre.start_of(e));
                assert(world.start_of(id) == Some(moved));
                assert(stepped_ok(*old(world), *world, id));
                assert forall|k: int| 0 <= k < i + 1 implies stepped_ok(
                    *old(world),
                    *world,
                    old(world).live()[k],
                ) by {
                    if k < i {
                        assert(old(world).live()[k] != id);
                        assert(stepped_ok(*old(world), pre, old(world).live()[k]));
                    }
                }
                assert forall|e: u64|
                    #[trigger] world.start_positions.spec_get(e) is Some implies world.is_live(
                    e,
                ) by {
                    if e != id {
                        assert(pre.start_positions.spec_get(e) is Some);
                    }
                }
            }
        } else {
            proof {
                assert(!movable(*old(world), id));
                assert(stepped_ok(*old(world), *world, id));
            }
        }
        i = i + 1;
    }
    proof {
        assert forall|id: u64| #![trigger world.start_of(id)] stepped_ok(
            *old(world),
            *world,
            id,
        ) by {
            if old(world).is_live(id) {
                let k = choose|k: int|
                    0 <= k < old(world).live().len() && old(world).live()[k] == id;
                assert(stepped_ok(*old(world), *world, old(world).live()[k]));
            } else {
                assert(world.start_of(id) == old(world).start_of(id));
                if movable(*old(world), id) {
                    assert(old(world).start_positions.spec_get(id) is Some);
                    assert(old(world).is_live(id));
                }
            }
        }
    }
}

/// The kinematics ("movement") system, run once per tick by the
/// dispatcher. It reads target positions and velocities and exclusively
/// writes current positions.
pub struct MovementSystem;

impl MovementSystem {
    /// Run one kinematics tick over the world.
    pub fn run(&mut self, world: &mut World)
        requires
            old(world).wf(),
            movement_safe(*old(world)),
        ensures
            final(world).wf(),
            movement_rel(*old(world), *final(world)),
    {
        movement_tick(world);
    }
}

/// Kinematics safety reads only the three kinematics storages: two
/// worlds that agree on them are equally safe to move.
pub proof fn lemma_movement_safe_same_kinematics(w0: World, w1: World)
    requires
        movement_safe(w0),
        w1.start_positions == w0.start_positions,
        w1.end_positions == w0.end_positions,
        w1.velocities == w0.velocities,
    ensures
        movement_safe(w1),
{
    assert forall|id: u64| #[trigger] movable(w1, id) implies movement_safe_for(w1, id) by {
        assert(movable(w0, id));
        assert(movement_safe_for(w0, id));
        assert(stepped_x(w1, id) == stepped_x(w0, id));
        assert(stepped_y(w1, id) == stepped_y(w0, id));
    }
}

/// While the step magnitude is positive and at most the remaining
/// distance, a tick strictly reduces the remaining distance by exactly
/// the step; the axis therefore locks to rest exactly when the distance
/// hits zero on an exact boundary tick.
pub proof fn lemma_kinematics_progress(cur: int, tgt: int, sp: int)
    requires
        0 < sp <= abs_val(tgt - cur),
    ensures
        abs_val(tgt - step_axis_spec(cur, tgt, sp)) == abs_val(tgt - cur) - sp,
        abs_val(tgt - step_axis_spec(cur, tgt, sp)) < abs_val(tgt - cur),
        (abs_val(tgt - step_axis_spec(cur, tgt, sp)) == 0) <==> (sp == abs_val(tgt - cur)),
{
}

/// An axis at rest stays at rest: once the remaining distance is zero,
/// the step leaves the position unchanged forever after.
pub proof fn lemma_kinematics_rest(cur: int, sp: int)
    ensures
        step_axis_spec(cur, cur, sp) == cur,
{
}

/// A zero step magnitude stalls the axis permanently: the position never
/// changes, whatever the remaining distance.
pub proof fn lemma_kinematics_stall(cur: int, tgt: int)
    ensures
        step_axis_spec(cur, tgt, 0) == cur,
{
}

/// Overshoot: when the step magnitude exceeds the nonzero remaining
/// distance, the tick jumps past the target and the sign of the
/// remaining distance flips, so the axis oscillates instead of
/// converging.
pub proof fn lemma_overshoot_flips_sign(cur: int, tgt: int, sp: int)
    requires
        tgt != cur,
        sp > abs_val(tgt - cur),
    ensures
        sign(tgt - step_axis_spec(cur, tgt, sp)) == -sign(tgt - cur),
        tgt - step_axis_spec(cur, tgt, sp) != 0,
{
}

} // verus!
