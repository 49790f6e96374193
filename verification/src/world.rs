//! The world: it exclusively owns the entity registry, one storage per
//! component type, and the global asset map, behind typed access with a
//! registration discipline.

use vstd::prelude::*;

use crate::EcsError;
use crate::components::{Asset, EndPosition, Inventory, Pos, StartPosition, Velocity, WorldMap};
use crate::kv::{lemma_sum_by_push, lemma_sum_by_remove, sum_by};
use crate::registry::{EntityId, Registry};
use crate::storage::Storage;

verus! {

/// Names a component storage or the global asset map, for registration
/// and for the access sets systems declare.
#[derive(Clone, Copy, Debug, PartialEq, Eq, Structural)]
pub enum ResourceId {
    StartPositions,
    EndPositions,
    Velocities,
    Inventories,
    Assets,
}

/// The sum of the inventory totals over the pairs of an inventory
/// storage.
pub open spec fn inv_storage_total(s: Seq<(u64, Inventory)>) -> int {
    sum_by(s, |p: (u64, Inventory)| p.1.spec_total())
}

/// Appending an inventory adds its total.
pub proof fn lemma_inv_storage_total_push(s: Seq<(u64, Inventory)>, x: (u64, Inventory))
    ensures
        inv_storage_total(s.push(x)) == inv_storage_total(s) + x.1.spec_total(),
{
    lemma_sum_by_push(s, |p: (u64, Inventory)| p.1.spec_total(), x);
}

/// Removing an inventory subtracts its total.
pub proof fn lemma_inv_storage_total_remove(s: Seq<(u64, Inventory)>, i: int)
    requires
        0 <= i < s.len(),
    ensures
        inv_storage_total(s.remove(i)) == inv_storage_total(s) - s[i].1.spec_total(),
{
    lemma_sum_by_remove(s, |p: (u64, Inventory)| p.1.spec_total(), i);
}

/// A stored inventory's total is bounded by the sum over the whole
/// storage, which is never negative.
pub proof fn lemma_inv_total_le_storage(w: World, id: u64)
    ensures
        inv_storage_total(w.inventories.entries()) >= 0,
        w.inv_of(id) matches Some(v) ==> v.spec_total() <= inv_storage_total(
            w.inventories.entries(),
        ),
{
    let s = w.inventories.entries();
    let f = |p: (u64, Inventory)| p.1.spec_total();
    assert forall|i: int| 0 <= i < s.len() implies f(s[i]) >= 0 by {
        s[i].1.lemma_amount_le_total(crate::components::AssetKind::Apple);
    }
    crate::kv::lemma_sum_by_nonneg(s, f);
    if crate::kv::kv_get(s, id) is Some {
        crate::kv::lemma_kv_get_some_index(s, id);
        let i = choose|i: int|
            0 <= i < s.len() && s[i].0 == id && crate::kv::kv_get(s, id) == Some(s[i].1);
        crate::kv::lemma_sum_by_element_le(s, f, i);
    }
}

/// The initial components an entity builder attaches atomically at
/// creation. Absent components simply leave the entity out of the systems
/// that join on them.
pub struct EntityInit {
    pub start: Option<StartPosition>,
    pub end: Option<EndPosition>,
    pub velocity: Option<Velocity>,
    pub inventory: Option<Inventory>,
}

impl EntityInit {
    pub open spec fn wf(self) -> bool {
        self.inventory matches Some(v) ==> v.wf()
    }

    pub fn new() -> (r: Self)
        ensures
            r.wf(),
            r.start is None,
            r.end is None,
            r.velocity is None,
            r.inventory is None,
    {
        EntityInit { start: None, end: None, velocity: None, inventory: None }
    }

    pub fn with_start(self, x: i64, y: i64) -> (r: Self)
        ensures
            r.start == Some(StartPosition { point: Pos { x, y } }),
            r.end == self.end,
            r.velocity == self.velocity,
            r.inventory == self.inventory,
    {
        EntityInit { start: Some(StartPosition::new(x, y)), ..self }
    }

    pub fn with_end(self, x: i64, y: i64) -> (r: Self)
        ensures
            r.end == Some(EndPosition { point: Pos { x, y } }),
            r.start == self.start,
            r.velocity == self.velocity,
            r.inventory == self.inventory,
    {
        EntityInit { end: Some(EndPosition::new(x, y)), ..self }
    }

    pub fn with_velocity(self, x: u64, y: u64) -> (r: Self)
        ensures
            r.velocity == Some(Velocity { x, y }),
            r.start == self.start,
            r.end == self.end,
            r.inventory == self.inventory,
    {
        EntityInit { velocity: Some(Velocity::new(x, y)), ..self }
    }

    pub fn with_inventory(self, inventory: Inventory) -> (r: Self)
        ensures
            r.inventory == Some(inventory),
            r.start == self.start,
            r.end == self.end,
            r.velocity == self.velocity,
    {
        EntityInit { inventory: Some(inventory), ..self }
    }
}

/// The aggregate of registry, storages and the asset map. All component
/// values live here; an entity owns a component exactly when the storage
/// has an entry for its identifier.
#[derive(Debug)]
pub struct World {
    pub registry: Registry,
    pub reg_start: bool,
    pub reg_end: bool,
    pub reg_vel: bool,
    pub reg_inv: bool,
    pub start_positions: Storage<StartPosition>,
    pub end_positions: Storage<EndPosition>,
    pub velocities: Storage<Velocity>,
    pub inventories: Storage<Inventory>,
    pub world_map: WorldMap,
}

impl World {
    /// The live entity identifiers, in creation order.
    pub open spec fn live(self) -> Seq<u64> {
        self.registry.live()
    }

    pub open spec fn is_live(self, id: u64) -> bool {
        self.registry.is_live(id)
    }

    pub open spec fn start_of(self, id: u64) -> Option<StartPosition> {
        self.start_positions.spec_get(id)
    }

    pub open spec fn end_of(self, id: u64) -> Option<EndPosition> {
        self.end_positions.spec_get(id)
    }

    pub open spec fn vel_of(self, id: u64) -> Option<Velocity> {
        self.velocities.spec_get(id)
    }

    pub open spec fn inv_of(self, id: u64) -> Option<Inventory> {
        self.inventories.spec_get(id)
    }

    /// The asset lying at `p` on the world map, when any.
    pub open spec fn asset_at_spec(self, p: Pos) -> Option<Asset> {
        self.world_map.spec_get(p)
    }

    /// Whether the storage or resource `r` has been registered. The asset
    /// map is a resource the world always owns, so it needs no
    /// registration.
    pub open spec fn registered(self, r: ResourceId) -> bool {
        match r {
            ResourceId::StartPositions => self.reg_start,
            ResourceId::EndPositions => self.reg_end,
            ResourceId::Velocities => self.reg_vel,
            ResourceId::Inventories => self.reg_inv,
            ResourceId::Assets => true,
        }
    }

    /// The total asset amount across the world map and all inventories.
    /// Ticks transfer amounts but never create or destroy them.
    pub open spec fn spec_wealth(self) -> int {
        self.world_map.spec_total() + inv_storage_total(self.inventories.entries())
    }

    /// Registry and containers are well formed, every stored component
    /// belongs to a live entity, and every stored inventory is well
    /// formed.
    pub open spec fn wf(self) -> bool {
        &&& self.registry.wf()
        &&& self.start_positions.wf()
        &&& self.end_positions.wf()
        &&& self.velocities.wf()
        &&& self.inventories.wf()
        &&& self.world_map.wf()
        &&& forall|id: u64| #[trigger] self.start_positions.spec_get(id) is Some ==> self.is_live(id)
        &&& forall|id: u64| #[trigger] self.end_positions.spec_get(id) is Some ==> self.is_live(id)
        &&& forall|id: u64| #[trigger] self.velocities.spec_get(id) is Some ==> self.is_live(id)
        &&& forall|id: u64| #[trigger] self.inventories.spec_get(id) is Some ==> self.is_live(id)
        &&& forall|id: u64|
            #[trigger] self.inventories.spec_get(id) matches Some(v) ==> v.wf()
    }

    /// Registration flags are the same in both worlds.
    pub open spec fn same_registration(self, other: World) -> bool {
        &&& self.reg_start == other.reg_start
        &&& self.reg_end == other.reg_end
        &&& self.reg_vel == other.reg_vel
        &&& self.reg_inv == other.reg_inv
    }

    /// An empty world: no entities, nothing registered, no assets.
    pub fn new() -> (w: Self)
        ensures
            w.wf(),
            w.live().len() == 0,
            w.registry.spec_next() == 0,
            forall|r: ResourceId| r != ResourceId::Assets ==> !w.registered(r),
            forall|id: u64| w.start_of(id) is None,
            forall|id: u64| w.end_of(id) is None,
            forall|id: u64| w.vel_of(id) is None,
            forall|id: u64| w.inv_of(id) is None,
            forall|p: Pos| w.asset_at_spec(p) is None,
            w.spec_wealth() == 0,
    {
        let w = World {
            registry: Registry::new(),
            reg_start: false,
            reg_end: false,
            reg_vel: false,
            reg_inv: false,
            start_positions: Storage::new(),
            end_positions: Storage::new(),
            velocities: Storage::new(),
            inventories: Storage::new(),
            world_map: WorldMap::new(),
        };
        proof {
            assert(w.inventories.entries().len() == 0);
            assert(inv_storage_total(w.inventories.entries()) == 0);
        }
        w
    }

    /// Register a component type so entities may carry it. Registering
    /// the asset map is accepted and changes nothing: the world always
    /// owns it.
    pub fn register(&mut self, r: ResourceId)
        requires
            old(self).wf(),
        ensures
            final(self).wf(),
            final(self).registered(r),
            forall|q: ResourceId| q != r ==> final(self).registered(q) == old(self).registered(q),
            final(self).registry == old(self).registry,
            final(self).start_positions == old(self).start_positions,
            final(self).end_positions == old(self).end_positions,
            final(self).velocities == old(self).velocities,
            final(self).inventories == old(self).inventories,
            final(self).world_map == old(self).world_map,
    {
        match r {
            ResourceId::StartPositions => self.reg_start = true,
            ResourceId::EndPositions => self.reg_end = true,
            ResourceId::Velocities => self.reg_vel = true,
            ResourceId::Inventories => self.reg_inv = true,
            ResourceId::Assets => (),
        }
    }

    /// Whether `r` has been registered.
    pub fn is_registered(&self, r: ResourceId) -> (b: bool)
        ensures
            b == self.registered(r),
    {
        match r {
            ResourceId::StartPositions => self.reg_start,
            ResourceId::EndPositions => self.reg_end,
            ResourceId::Velocities => self.reg_vel,
            ResourceId::Inventories => self.reg_inv,
            ResourceId::Assets => true,
        }
    }

    /// Whether `init` only carries components whose types are registered.
    pub open spec fn init_registered(self, init: EntityInit) -> bool {
        &&& init.start is Some ==> self.registered(ResourceId::StartPositions)
        &&& init.end is Some ==> self.registered(ResourceId::EndPositions)
        &&& init.velocity is Some ==> self.registered(ResourceId::Velocities)
        &&& init.inventory is Some ==> self.registered(ResourceId::Inventories)
    }

    /// Create an entity and attach the components of `init` atomically.
    /// Fails with `UnregisteredComponent`, changing nothing, exactly when
    /// `init` carries a component whose type is not registered.
    pub fn create_entity(&mut self, init: EntityInit) -> (r: Result<EntityId, EcsError>)
        requires
            old(self).wf(),
            init.wf(),
            old(self).registry.spec_next() < u64::MAX,
        ensures
            final(self).wf(),
            !old(self).init_registered(init) ==> r == Err::<EntityId, EcsError>(
                EcsError::UnregisteredComponent,
            ) && *final(self) == *old(self),
            old(self).init_registered(init) ==> r is Ok && ({
                let id = r->Ok_0.id;
                &&& id == old(self).registry.spec_next()
                &&& !old(self).is_live(id)
                &&& final(self).is_live(id)
                &&& final(self).live() == old(self).live().push(id)
                &&& final(self).registry.spec_next() == old(self).registry.spec_next() + 1
                &&& final(self).start_of(id) == init.start
                &&& final(self).end_of(id) == init.end
                &&& final(self).vel_of(id) == init.velocity
                &&& final(self).inv_of(id) == init.inventory
                &&& forall|e: u64| e != id ==> final(self).start_of(e) == old(self).start_of(e)
                &&& forall|e: u64| e != id ==> final(self).end_of(e) == old(self).end_of(e)
                &&& forall|e: u64| e != id ==> final(self).vel_of(e) == old(self).vel_of(e)
                &&& forall|e: u64| e != id ==> final(self).inv_of(e) == old(self).inv_of(e)
                &&& forall|e: u64| e != id ==> final(self).is_live(e) == old(self).is_live(e)
                &&& final(self).world_map == old(self).world_map
                &&& final(self).same_registration(*old(self))
                &&& final(self).spec_wealth() == old(self).spec_wealth() + (
                match init.inventory {
                    Some(v) => v.spec_total(),
                    None => 0,
                })
            }),
    {
        let blocked = (matches!(init.start, Some(_)) && !self.reg_start) || (matches!(
            init.end,
            Some(_),
        ) && !self.reg_end) || (matches!(init.velocity, Some(_)) && !self.reg_vel) || (matches!(
            init.inventory,
            Some(_),
        ) && !self.reg_inv);
        if blocked {
            return Err(EcsError::UnregisteredComponent);
        }
        let id = self.registry.create();
        let e = id.id;
        proof {
            assert(!old(self).start_positions.spec_contains(e));
            assert(!old(self).end_positions.spec_contains(e));
            assert(!old(self).velocities.spec_contains(e));
            assert(!old(self).inventories.spec_contains(e));
        }
        if let Some(c) = init.start {
            self.start_positions.insert(e, c);
        }
        if let Some(c) = init.end {
            self.end_positions.insert(e, c);
        }
        if let Some(c) = init.velocity {
            self.velocities.insert(e, c);
        }
        match init.inventory {
            Some(c) => {
                let ghost s0 = self.inventories.entries();
                self.inventories.insert(e, c);
                proof {
                    assert(self.inventories.entries() == s0.push((e, c)));
                    lemma_inv_storage_total_push(s0, (e, c));
                }
            },
            None => (),
        }
        Ok(id)
    }

    /// Destroy an entity: it stops being live and its entries are removed
    /// from every storage; queries for it observe absence everywhere.
    /// Everything held for other entities, the asset map and the
    /// registration flags are untouched.
    pub fn destroy_entity(&mut self, id: EntityId)
        requires
            old(self).wf(),
        ensures
            final(self).wf(),
            !final(self).is_live(id.id),
            final(self).start_of(id.id) is None,
            final(self).end_of(id.id) is None,
            final(self).vel_of(id.id) is None,
            final(self).inv_of(id.id) is None,
            forall|e: u64| e != id.id ==> final(self).start_of(e) == old(self).start_of(e),
            forall|e: u64| e != id.id ==> final(self).end_of(e) == old(self).end_of(e),
            forall|e: u64| e != id.id ==> final(self).vel_of(e) == old(self).vel_of(e),
            forall|e: u64| e != id.id ==> final(self).inv_of(e) == old(self).inv_of(e),
            forall|e: u64| e != id.id ==> final(self).is_live(e) == old(self).is_live(e),
            final(self).world_map == old(self).world_map,
            final(self).same_registration(*old(self)),
            final(self).registry.spec_next() == old(self).registry.spec_next(),
            final(self).spec_wealth() == old(self).spec_wealth() - (
            match old(self).inv_of(id.id) {
                Some(v) => v.spec_total(),
                None => 0,
            }),
            !old(self).is_live(id.id) ==> *final(self) == *old(self),
    {
        let e = id.id;
        self.registry.destroy(id);
        self.start_positions.remove(e);
        self.end_positions.remove(e);
        self.velocities.remove(e);
        let ghost s0 = self.inventories.entries();
        let removed = self.inventories.remove(e);
        proof {
            if old(self).inventories.spec_contains(e) {
                let i = choose|i: int|
                    0 <= i < s0.len() && s0[i].0 == e && self.inventories.entries() == s0.remove(i);
                lemma_inv_storage_total_remove(s0, i);
                crate::kv::lemma_kv_get_present(s0, i);
            } else {
                assert(self.inventories.entries() == s0);
            }
        }
    }

    /// The current position of entity `id`, or `UnregisteredComponent`
    /// before registration.
    pub fn get_start_position(&self, id: EntityId) -> (r: Result<
        Option<&StartPosition>,
        EcsError,
    >)
        requires
            self.wf(),
        ensures
            !self.registered(ResourceId::StartPositions) ==> r is Err && r->Err_0
                == EcsError::UnregisteredComponent,
            self.registered(ResourceId::StartPositions) ==> r is Ok && (match r->Ok_0 {
                Some(v) => self.start_of(id.id) == Some(*v),
                None => self.start_of(id.id) is None,
            }),
    {
        if !self.reg_start {
            return Err(EcsError::UnregisteredComponent);
        }
        Ok(self.start_positions.get(id.id))
    }

    /// The target position of entity `id`, or `UnregisteredComponent`
    /// before registration.
    pub fn get_end_position(&self, id: EntityId) -> (r: Result<Option<&EndPosition>, EcsError>)
        requires
            self.wf(),
        ensures
            !self.registered(ResourceId::EndPositions) ==> r is Err && r->Err_0
                == EcsError::UnregisteredComponent,
            self.registered(ResourceId::EndPositions) ==> r is Ok && (match r->Ok_0 {
                Some(v) => self.end_of(id.id) == Some(*v),
                None => self.end_of(id.id) is None,
            }),
    {
        if !self.reg_end {
            return Err(EcsError::UnregisteredComponent);
        }
        Ok(self.end_positions.get(id.id))
    }

    /// The velocity of entity `id`, or `UnregisteredComponent` before
    /// registration.
    pub fn get_velocity(&self, id: EntityId) -> (r: Result<Option<&Velocity>, EcsError>)
        requires
            self.wf(),
        ensures
            !self.registered(ResourceId::Velocities) ==> r is Err && r->Err_0
                == EcsError::UnregisteredComponent,
            self.registered(ResourceId::Velocities) ==> r is Ok && (match r->Ok_0 {
                Some(v) => self.vel_of(id.id) == Some(*v),
                None => self.vel_of(id.id) is None,
            }),
    {
        if !self.reg_vel {
            return Err(EcsError::UnregisteredComponent);
        }
        Ok(self.velocities.get(id.id))
    }

    /// The inventory of entity `id`, or `UnregisteredComponent` before
    /// registration.
    pub fn get_inventory(&self, id: EntityId) -> (r: Result<Option<&Inventory>, EcsError>)
        requires
            self.wf(),
        ensures
            !self.registered(ResourceId::Inventories) ==> r is Err && r->Err_0
                == EcsError::UnregisteredComponent,
            self.registered(ResourceId::Inventories) ==> r is Ok && (match r->Ok_0 {
                Some(v) => self.inv_of(id.id) == Some(*v),
                None => self.inv_of(id.id) is None,
            }),
    {
        if !self.reg_inv {
            return Err(EcsError::UnregisteredComponent);
        }
        Ok(self.inventories.get(id.id))
    }

    /// Place an asset on the world map, replacing whatever lay at `pos`.
    pub fn place_asset(&mut self, pos: Pos, asset: Asset)
        requires
            old(self).wf(),
        ensures
            final(self).wf(),
            final(self).asset_at_spec(pos) == Some(asset),
            forall|q: Pos| q != pos ==> final(self).asset_at_spec(q) == old(self).asset_at_spec(q),
            final(self).registry == old(self).registry,
            final(self).start_positions == old(self).start_positions,
            final(self).end_positions == old(self).end_positions,
            final(self).velocities == old(self).velocities,
            final(self).inventories == old(self).inventories,
            final(self).same_registration(*old(self)),
            final(self).spec_wealth() == old(self).spec_wealth() + asset.amount - (
            match old(self).asset_at_spec(pos) {
                Some(a) => a.amount as int,
                None => 0,
            }),
    {
        self.world_map.insert_asset(pos, asset);
    }

    /// The asset lying at `pos`, when any.
    pub fn asset_at(&self, pos: Pos) -> (r: Option<Asset>)
        requires
            self.wf(),
        ensures
            r == self.asset_at_spec(pos),
    {
        match self.world_map.get_asset(pos) {
            Some(a) => Some(*a),
            None => None,
        }
    }

    /// The number of positions on the world map that hold an asset.
    pub fn asset_count(&self) -> (r: usize)
        ensures
            r == self.world_map.entries().len(),
    {
        self.world_map.asset_count()
    }

    /// The number of live entities.
    pub fn entity_count(&self) -> (r: usize)
        ensures
            r == self.live().len(),
    {
        self.registry.live_count()
    }

    /// The live entity at iteration index `i`.
    pub fn entity_at(&self, i: usize) -> (r: EntityId)
        requires
            i < self.live().len(),
        ensures
            r.id == self.live()[i as int],
    {
        EntityId { id: self.registry.live_at(i) }
    }

    /// Whether entity `id` is live.
    pub fn is_alive(&self, id: EntityId) -> (r: bool)
        ensures
            r == self.is_live(id.id),
    {
        self.registry.is_alive(id)
    }

    /// Whether another entity can still be created.
    pub fn can_create(&self) -> (r: bool)
        ensures
            r == (self.registry.spec_next() < u64::MAX),
    {
        self.registry.can_create()
    }
}

} // verus!
