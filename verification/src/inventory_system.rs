//! The pickup ("inventory") system: every tick, each entity that has a
//! current position and an inventory claims the asset lying at its
//! position, removing it from the world map and merging it into the
//! inventory by summation. When several entities share a position, one
//! claim succeeds and the others observe the position as already empty;
//! the total asset amount is conserved either way.

use vstd::prelude::*;

use crate::components::{Asset, AssetKind, Inventory, Pos};
use crate::world::{World, lemma_inv_storage_total_push, lemma_inv_storage_total_remove};

verus! {

/// Whether entity `id` takes part in pickup: it has a current position
/// and an inventory.
pub open spec fn claimant(w: World, id: u64) -> bool {
    w.start_of(id) is Some && w.inv_of(id) is Some
}

/// The current position of a claimant.
pub open spec fn pos_of(w: World, id: u64) -> Pos {
    w.start_of(id)->Some_0.point
}

/// Whether some claimant stands on position `p`.
pub open spec fn occupied(w: World, p: Pos) -> bool {
    exists|id: u64| #[trigger] claimant(w, id) && pos_of(w, id) == p
}

/// `after` is `before` with the asset `a` merged in: its kind gained
/// exactly `a.amount`, every other kind is untouched.
pub open spec fn merged_inv(before: Inventory, after: Inventory, a: Asset) -> bool {
    &&& after.spec_amount(a.kind) == before.spec_amount(a.kind) + a.amount
    &&& forall|k: AssetKind| k != a.kind ==> after.spec_amount(k) == before.spec_amount(k)
    &&& after.spec_total() == before.spec_total() + a.amount
}

/// Entity `id` is the one claimant served at position `p` over one
/// pickup tick from `w0`: it stands there, its inventory gained exactly
/// the asset that lay at `p`, and every other claimant standing at `p`
/// kept its inventory.
pub open spec fn claim_winner(w0: World, w1: World, p: Pos, id: u64) -> bool {
    &&& claimant(w0, id)
    &&& pos_of(w0, id) == p
    &&& w0.asset_at_spec(p) matches Some(a)
    &&& w0.inv_of(id) matches Some(oi)
    &&& w1.inv_of(id) matches Some(ni)
    &&& merged_inv(oi, ni, a)
    &&& forall|e: u64|
        #![trigger w1.inv_of(e)]
        e != id && claimant(w0, e) && pos_of(w0, e) == p ==> w1.inv_of(e) == w0.inv_of(e)
}

/// How entity `id`'s inventory may change over one pickup tick from
/// `w0`: a non-claimant is untouched; a claimant either claims the asset
/// that lay at its position or is untouched (when another same-position
/// claimant was served first, or no asset lay there).
pub open spec fn inv_step_ok(w0: World, w1: World, id: u64) -> bool {
    if claimant(w0, id) {
        ||| w1.inv_of(id) == w0.inv_of(id)
        ||| {
            &&& w0.asset_at_spec(pos_of(w0, id)) matches Some(a)
            &&& w1.inv_of(id) matches Some(ni)
            &&& w0.inv_of(id) matches Some(oi)
            &&& merged_inv(oi, ni, a)
        }
    } else {
        w1.inv_of(id) == w0.inv_of(id)
    }
}

/// Merging cannot overflow for any claimant: the accumulated amount of
/// the claimed kind plus the claimed amount fits in `u64`. A machine
/// limit only.
pub open spec fn pickup_safe_for(w: World, id: u64) -> bool {
    claimant(w, id) ==> match w.asset_at_spec(pos_of(w, id)) {
        Some(a) => w.inv_of(id)->Some_0.spec_amount(a.kind) + a.amount <= u64::MAX,
        None => true,
    }
}

/// The overflow bound holds for every entity.
pub open spec fn pickup_safe(w: World) -> bool {
    forall|id: u64| #[trigger] pickup_safe_for(w, id)
}

/// How one pickup tick relates the world before (`w0`) and after (`w1`):
/// every position a claimant stands on is cleared, every other position
/// is untouched, every inventory changed only by claiming, each stocked
/// occupied position is claimed by exactly one of the claimants standing
/// on it (which one is unspecified) while the rest of them are untouched,
/// the total asset amount is conserved, and nothing else moves.
pub open spec fn pickup_rel(w0: World, w1: World) -> bool {
    &&& w1.registry == w0.registry
    &&& w1.start_positions == w0.start_positions
    &&& w1.end_positions == w0.end_positions
    &&& w1.velocities == w0.velocities
    &&& w1.same_registration(w0)
    &&& forall|p: Pos|
        #![trigger w1.asset_at_spec(p)]
        w1.asset_at_spec(p) == (if occupied(w0, p) {
            None::<Asset>
        } else {
            w0.asset_at_spec(p)
        })
    &&& forall|id: u64| #![trigger w1.inv_of(id)] inv_step_ok(w0, w1, id)
    &&& forall|p: Pos|
        #![trigger occupied(w0, p)]
        occupied(w0, p) && w0.asset_at_spec(p) is Some ==> exists|id: u64|
            #[trigger] claim_winner(w0, w1, p, id)
    &&& w1.spec_wealth() == w0.spec_wealth()
}

/// Whether one of the first `i` live entities of `w0` is a claimant
/// standing on `p`.
spec fn occupied_before(w0: World, i: int, p: Pos) -> bool {
    exists|k: int|
        0 <= k < i && #[trigger] claimant(w0, w0.live()[k]) && pos_of(w0, w0.live()[k]) == p
}

/// What actually happens to the entity at live index `k` during the
/// tick: the first claimant at each stocked position merges its asset;
/// every other entity is untouched.
spec fn tick_outcome(w0: World, w1: World, k: int) -> bool {
    let id = w0.live()[k];
    if claimant(w0, id) && w0.asset_at_spec(pos_of(w0, id)) is Some && !occupied_before(
        w0,
        k,
        pos_of(w0, id),
    ) {
        &&& w0.asset_at_spec(pos_of(w0, id)) matches Some(a)
        &&& w0.inv_of(id) matches Some(oi)
        &&& w1.inv_of(id) matches Some(ni)
        &&& merged_inv(oi, ni, a)
    } else {
        w1.inv_of(id) == w0.inv_of(id)
    }
}

/// From any claimant index at `p`, the earliest claimant index at `p`.
proof fn lemma_first_claimant(w0: World, p: Pos, k0: int) -> (k: int)
    requires
        0 <= k0 < w0.live().len(),
        claimant(w0, w0.live()[k0]),
        pos_of(w0, w0.live()[k0]) == p,
    ensures
        0 <= k <= k0,
        claimant(w0, w0.live()[k]),
        pos_of(w0, w0.live()[k]) == p,
        !occupied_before(w0, k, p),
    decreases k0,
{
    if occupied_before(w0, k0, p) {
        let j = choose|j: int|
            0 <= j < k0 && #[trigger] claimant(w0, w0.live()[j]) && pos_of(w0, w0.live()[j]) == p;
        lemma_first_claimant(w0, p, j)
    } else {
        k0
    }
}

/// Extends the map clause of the pickup loop invariant over an entity
/// that is a claimant at `p`: after its turn the position `p` is empty
/// and every other position kept its value.
proof fn lemma_extend_map_claimed(w0: World, w_pre: World, w1: World, i: int, id: u64, p: Pos)
    requires
        0 <= i < w0.live().len(),
        w0.live()[i] == id,
        claimant(w0, id),
        pos_of(w0, id) == p,
        forall|q: Pos|
            #![trigger w_pre.asset_at_spec(q)]
            w_pre.asset_at_spec(q) == (if occupied_before(w0, i, q) {
                None::<Asset>
            } else {
                w0.asset_at_spec(q)
            }),
        w1.asset_at_spec(p) is None,
        forall|q: Pos| q != p ==> w1.asset_at_spec(q) == w_pre.asset_at_spec(q),
    ensures
        forall|q: Pos|
            #![trigger w1.asset_at_spec(q)]
            w1.asset_at_spec(q) == (if occupied_before(w0, i + 1, q) {
                None::<Asset>
            } else {
                w0.asset_at_spec(q)
            }),
{
    assert forall|q: Pos|
        #![trigger w1.asset_at_spec(q)]
        w1.asset_at_spec(q) == (if occupied_before(w0, i + 1, q) {
            None::<Asset>
        } else {
            w0.asset_at_spec(q)
        }) by {
        if occupied_before(w0, i + 1, q) {
            let k = choose|k: int|
                0 <= k < i + 1 && #[trigger] claimant(w0, w0.live()[k]) && pos_of(
                    w0,
                    w0.live()[k],
                ) == q;
            if k < i {
                assert(occupied_before(w0, i, q));
                assert(w_pre.asset_at_spec(q) is None);
            } else {
                assert(q == p);
            }
        } else {
            assert(!occupied_before(w0, i, q)) by {
                if occupied_before(w0, i, q) {
                    let k = choose|k: int|
                        0 <= k < i && #[trigger] claimant(w0, w0.live()[k]) && pos_of(
                            w0,
                            w0.live()[k],
                        ) == q;
                    assert(occupied_before(w0, i + 1, q));
                }
            }
            assert(q != p) by {
                if q == p {
                    assert(claimant(w0, w0.live()[i]) && pos_of(w0, w0.live()[i]) == q);
                    assert(occupied_before(w0, i + 1, q));
                }
            }
        }
    }
}

/// Extends the map clause of the pickup loop invariant over an entity
/// that is not a claimant: the map is untouched on its turn.
proof fn lemma_extend_map_unclaimed(w0: World, w_pre: World, w1: World, i: int)
    requires
        0 <= i < w0.live().len(),
        !claimant(w0, w0.live()[i]),
        forall|q: Pos|
            #![trigger w_pre.asset_at_spec(q)]
            w_pre.asset_at_spec(q) == (if occupied_before(w0, i, q) {
                None::<Asset>
            } else {
                w0.asset_at_spec(q)
            }),
        forall|q: Pos| #![trigger w1.asset_at_spec(q)] w1.asset_at_spec(q) == w_pre.asset_at_spec(q),
    ensures
        forall|q: Pos|
            #![trigger w1.asset_at_spec(q)]
            w1.asset_at_spec(q) == (if occupied_before(w0, i + 1, q) {
                None::<Asset>
            } else {
                w0.asset_at_spec(q)
            }),
{
    assert forall|q: Pos|
        #![trigger w1.asset_at_spec(q)]
        w1.asset_at_spec(q) == (if occupied_before(w0, i + 1, q) {
            None::<Asset>
        } else {
            w0.asset_at_spec(q)
        }) by {
        if occupied_before(w0, i + 1, q) {
            let k = choose|k: int|
                0 <= k < i + 1 && #[trigger] claimant(w0, w0.live()[k]) && pos_of(
                    w0,
                    w0.live()[k],
                ) == q;
            assert(k != i);
            assert(occupied_before(w0, i, q));
        } else {
            assert(!occupied_before(w0, i, q)) by {
                if occupied_before(w0, i, q) {
                    let k = choose|k: int|
                        0 <= k < i && #[trigger] claimant(w0, w0.live()[k]) && pos_of(
                            w0,
                            w0.live()[k],
                        ) == q;
                    assert(occupied_before(w0, i + 1, q));
                }
            }
        }
    }
}

/// Extends the inventory clauses of the pickup loop invariant over the
/// entity whose turn index `i` is: earlier entities keep their step,
/// later ones and dead identifiers stay untouched.
proof fn lemma_extend_inv(w0: World, w_pre: World, w1: World, i: int, id: u64)
    requires
        w0.wf(),
        0 <= i < w0.live().len(),
        w0.live()[i] == id,
        forall|k: int| 0 <= k < i ==> tick_outcome(w0, w_pre, k),
        forall|k: int|
            i <= k < w0.live().len() ==> w_pre.inv_of(w0.live()[k]) == w0.inv_of(w0.live()[k]),
        forall|e: u64| !w0.is_live(e) ==> w_pre.inv_of(e) == w0.inv_of(e),
        forall|e: u64| e != id ==> w1.inv_of(e) == w_pre.inv_of(e),
        tick_outcome(w0, w1, i),
    ensures
        forall|k: int| 0 <= k < i + 1 ==> tick_outcome(w0, w1, k),
        forall|k: int|
            i + 1 <= k < w0.live().len() ==> w1.inv_of(w0.live()[k]) == w0.inv_of(w0.live()[k]),
        forall|e: u64| !w0.is_live(e) ==> w1.inv_of(e) == w0.inv_of(e),
{
    assert forall|k: int| 0 <= k < i + 1 implies tick_outcome(w0, w1, k) by {
        if k < i {
            assert(w0.live()[k] != id);
            assert(w1.inv_of(w0.live()[k]) == w_pre.inv_of(w0.live()[k]));
            assert(tick_outcome(w0, w_pre, k));
        }
    }
    assert forall|k: int| i + 1 <= k < w0.live().len() implies w1.inv_of(w0.live()[k])
        == w0.inv_of(w0.live()[k]) by {
        assert(w0.live()[k] != id);
    }
    assert forall|e: u64| !w0.is_live(e) implies w1.inv_of(e) == w0.inv_of(e) by {
        if e == id {
            assert(w0.live()[i] == e);
            assert(w0.is_live(e));
        }
    }
}

/// Run one pickup tick over every entity of the world.
pub fn pickup_tick(world: &mut World)
    requires
        old(world).wf(),
        pickup_safe(*old(world)),
    ensures
        final(world).wf(),
        pickup_rel(*old(world), *final(world)),
{
    let n = world.registry.live_count();
    let mut i: usize = 0;
    while i < n
        invariant
            world.wf(),
            old(world).wf(),
            pickup_safe(*old(world)),
            n == old(world).live().len(),
            0 <= i <= n,
            world.registry == old(world).registry,
            world.start_positions == old(world).start_positions,
            world.end_positions == old(world).end_positions,
            world.velocities == old(world).velocities,
            world.same_registration(*old(world)),
            forall|q: Pos|
                #![trigger world.asset_at_spec(q)]
                world.asset_at_spec(q) == (if occupied_before(*old(world), i as int, q) {
                    None::<Asset>
                } else {
                    old(world).asset_at_spec(q)
                }),
            forall|k: int| 0 <= k < i ==> tick_outcome(*old(world), *world, k),
            forall|k: int|
                i <= k < n ==> world.inv_of(old(world).live()[k]) == old(world).inv_of(
                    old(world).live()[k],
                ),
            forall|e: u64| !old(world).is_live(e) ==> world.inv_of(e) == old(world).inv_of(e),
            world.spec_wealth() == old(world).spec_wealth(),
        decreases n - i,
    {
        let id = world.registry.live_at(i);
        proof {
            assert(world.live() == old(world).live());
            assert(world.inv_of(id) == old(world).inv_of(id));
        }
        let pos_opt = match world.start_positions.get(id) {
            Some(c) => Some(c.point),
            None => None,
        };
        let ghost w_pre = *world;
        if let Some(p) = pos_opt {
            if world.inventories.contains(id) {
                proof {
                    assert(claimant(*old(world), id));
                    assert(pos_of(*old(world), id) == p);
                }
                match world.world_map.remove_asset(p) {
                    Some(asset) => {
                        proof {
                            assert(w_pre.asset_at_spec(p) == Some(asset));
                            assert(!occupied_before(*old(world), i as int, p));
                            assert(old(world).asset_at_spec(p) == Some(asset));
                            assert(pickup_safe_for(*old(world), id));
                        }
                        let ghost inv_entries0 = world.inventories.entries();
                        match world.inventories.remove(id) {
                            Some(mut inv) => {
                                proof {
                                    let j = choose|j: int|
                                        0 <= j < inv_entries0.len() && inv_entries0[j].0 == id
                                            && world.inventories.entries() == inv_entries0.remove(
                                            j,
                                        );
                                    lemma_inv_storage_total_remove(inv_entries0, j);
                                    crate::kv::lemma_kv_get_present(inv_entries0, j);
                                    assert(inv == old(world).inv_of(id)->Some_0);
                                    assert(inv.wf());
                                }
                                inv.add_asset(asset);
                                let ghost inv_entries1 = world.inventories.entries();
                                world.inventories.insert(id, inv);
                                proof {
                                    assert(world.inventories.entries() == inv_entries1.push(
                                        (id, inv),
                                    ));
                                    lemma_inv_storage_total_push(inv_entries1, (id, inv));
                                    assert(tick_outcome(*old(world), *world, i as int));
                                    assert forall|e: u64|
                                        #[trigger] world.inventories.spec_get(e)
                                            is Some implies world.is_live(e) by {
                                        if e != id {
                                            assert(w_pre.inventories.spec_get(e) is Some);
                                        }
                                    }
                                    lemma_extend_map_claimed(
                                        *old(world),
                                        w_pre,
                                        *world,
                                        i as int,
                                        id,
                                        p,
                                    );
                                    lemma_extend_inv(*old(world), w_pre, *world, i as int, id);
                                }
                            },
                            None => {
                                // Unreachable: the claimant check above
                                // found an inventory for this entity.
                                proof {
                                    assert(false);
                                }
                            },
                        }
                    },
                    None => {
                        proof {
                            assert(world.inv_of(id) == old(world).inv_of(id));
                            assert(w_pre.asset_at_spec(p) is None);
                            assert(occupied_before(*old(world), i as int, p) || old(
                                world,
                            ).asset_at_spec(p) is None);
                            assert(tick_outcome(*old(world), *world, i as int));
                            lemma_extend_map_claimed(
                                *old(world),
                                w_pre,
                                *world,
                                i as int,
                                id,
                                p,
                            );
                            lemma_extend_inv(*old(world), w_pre, *world, i as int, id);
                        }
                    },
                }
            } else {
                proof {
                    assert(!claimant(*old(world), id));
                    assert(tick_outcome(*old(world), *world, i as int));
                    lemma_extend_map_unclaimed(*old(world), w_pre, *world, i as int);
                    lemma_extend_inv(*old(world), w_pre, *world, i as int, id);
                }
            }
        } else {
            proof {
                assert(!claimant(*old(world), id));
                assert(tick_outcome(*old(world), *world, i as int));
                lemma_extend_map_unclaimed(*old(world), w_pre, *world, i as int);
                lemma_extend_inv(*old(world), w_pre, *world, i as int, id);
            }
        }
        i = i + 1;
    }
    proof {
        assert forall|p: Pos|
            #![trigger world.asset_at_spec(p)]
            world.asset_at_spec(p) == (if occupied(*old(world), p) {
                None::<Asset>
            } else {
                old(world).asset_at_spec(p)
            }) by {
            if occupied(*old(world), p) {
                let id = choose|id: u64|
                    #[trigger] claimant(*old(world), id) && pos_of(*old(world), id) == p;
                assert(old(world).start_positions.spec_get(id) is Some);
                assert(old(world).is_live(id));
                let k = choose|k: int|
                    0 <= k < old(world).live().len() && old(world).live()[k] == id;
                assert(claimant(*old(world), old(world).live()[k]));
                assert(occupied_before(*old(world), n as int, p));
            } else {
                assert(!occupied_before(*old(world), n as int, p)) by {
                    if occupied_before(*old(world), n as int, p) {
                        let k = choose|k: int|
                            0 <= k < n && #[trigger] claimant(*old(world), old(world).live()[k])
                                && pos_of(*old(world), old(world).live()[k]) == p;
                        assert(occupied(*old(world), p));
                    }
                }
            }
        }
        assert forall|id: u64| #![trigger world.inv_of(id)] inv_step_ok(
            *old(world),
            *world,
            id,
        ) by {
            if old(world).is_live(id) {
                let k = choose|k: int|
                    0 <= k < old(world).live().len() && old(world).live()[k] == id;
                assert(tick_outcome(*old(world), *world, k));
            } else {
                assert(world.inv_of(id) == old(world).inv_of(id));
                if claimant(*old(world), id) {
                    assert(old(world).start_positions.spec_get(id) is Some);
                    assert(old(world).is_live(id));
                }
            }
        }
        assert forall|p: Pos|
            #![trigger occupied(*old(world), p)]
            occupied(*old(world), p) && old(world).asset_at_spec(p) is Some implies exists|w: u64|
            #[trigger] claim_winner(*old(world), *world, p, w) by {
            let id0 = choose|id0: u64|
                #[trigger] claimant(*old(world), id0) && pos_of(*old(world), id0) == p;
            assert(old(world).start_positions.spec_get(id0) is Some);
            assert(old(world).is_live(id0));
            let k0 = choose|k0: int|
                0 <= k0 < old(world).live().len() && old(world).live()[k0] == id0;
            assert(claimant(*old(world), old(world).live()[k0]));
            let kw = lemma_first_claimant(*old(world), p, k0);
            let idw = old(world).live()[kw];
            assert(tick_outcome(*old(world), *world, kw));
            assert forall|e: u64|
                #![trigger world.inv_of(e)]
                e != idw && claimant(*old(world), e) && pos_of(*old(world), e)
                    == p implies world.inv_of(e) == old(world).inv_of(e) by {
                assert(old(world).start_positions.spec_get(e) is Some);
                assert(old(world).is_live(e));
                let ke = choose|ke: int|
                    0 <= ke < old(world).live().len() && old(world).live()[ke] == e;
                assert(tick_outcome(*old(world), *world, ke));
                if ke < kw {
                    assert(claimant(*old(world), old(world).live()[ke]) && pos_of(
                        *old(world),
                        old(world).live()[ke],
                    ) == p);
                    assert(occupied_before(*old(world), kw, p));
                } else {
                    assert(ke != kw);
                    assert(claimant(*old(world), old(world).live()[kw]) && pos_of(
                        *old(world),
                        old(world).live()[kw],
                    ) == p);
                    assert(occupied_before(*old(world), ke, p));
                }
            }
            assert(claim_winner(*old(world), *world, p, idw));
        }
    }
}

/// The pickup ("inventory") system, run once per tick by the dispatcher.
/// It reads current positions and exclusively writes inventories and the
/// world asset map.
pub struct InventorySystem;

impl InventorySystem {
    /// Run one pickup tick over the world.
    pub fn run(&mut self, world: &mut World)
        requires
            old(world).wf(),
            pickup_safe(*old(world)),
        ensures
            final(world).wf(),
            pickup_rel(*old(world), *final(world)),
    {
        pickup_tick(world);
    }
}

/// Conservation keeps pickup safe forever: in a world whose total
/// asset amount fits in `u64`, no merge can overflow, because any one
/// accumulated amount and any one lying asset are both bounded by that
/// total.
pub proof fn lemma_pickup_safe_from_wealth(w: World)
    requires
        w.spec_wealth() <= u64::MAX,
    ensures
        pickup_safe(w),
{
    assert forall|id: u64| #[trigger] pickup_safe_for(w, id) by {
        if claimant(w, id) {
            match w.asset_at_spec(pos_of(w, id)) {
                Some(a) => {
                    let inv = w.inv_of(id)->Some_0;
                    inv.lemma_amount_le_total(a.kind);
                    crate::world::lemma_inv_total_le_storage(w, id);
                    w.world_map.lemma_asset_le_total(pos_of(w, id));
                },
                None => (),
            }
        }
    }
}

/// Pickup is idempotent: a second tick right after a first one, with no
/// intervening change, is a no-op — every claimed position is already
/// empty and every inventory stays as the first tick left it.
pub proof fn lemma_pickup_idempotent(w0: World, w1: World, w2: World)
    requires
        w0.wf(),
        pickup_rel(w0, w1),
        pickup_rel(w1, w2),
    ensures
        forall|p: Pos| #![trigger w2.asset_at_spec(p)] w2.asset_at_spec(p) == w1.asset_at_spec(p),
        forall|id: u64| #![trigger w2.inv_of(id)] w2.inv_of(id) == w1.inv_of(id),
{
    assert forall|p: Pos| #![trigger w2.asset_at_spec(p)] w2.asset_at_spec(p)
        == w1.asset_at_spec(p) by {
        if occupied(w1, p) {
            let id = choose|id: u64| #[trigger] claimant(w1, id) && pos_of(w1, id) == p;
            assert(inv_step_ok(w0, w1, id));
            assert(claimant(w0, id));
            assert(pos_of(w0, id) == p);
            assert(occupied(w0, p));
            assert(w1.asset_at_spec(p) is None);
        }
    }
    assert forall|id: u64| #![trigger w2.inv_of(id)] w2.inv_of(id) == w1.inv_of(id) by {
        assert(inv_step_ok(w1, w2, id));
        if claimant(w1, id) {
            assert(inv_step_ok(w0, w1, id));
            assert(claimant(w0, id));
            let p = pos_of(w1, id);
            assert(pos_of(w0, id) == p);
            assert(occupied(w0, p));
            assert(w1.asset_at_spec(p) is None);
        }
    }
}

} // verus!
