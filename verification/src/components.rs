//! The component and resource types carried by entities: positions,
//! velocity, per-entity inventories, and the world asset map.

use vstd::prelude::*;

use crate::kv::{kv_get, kv_unique, sum_by};
use crate::kv::{
    lemma_kv_get_absent, lemma_kv_get_push, lemma_kv_get_remove, lemma_kv_get_some_index,
    lemma_kv_get_update, lemma_kv_unique_push, lemma_kv_unique_remove, lemma_kv_unique_update,
    lemma_sum_by_push, lemma_sum_by_remove, lemma_sum_by_update,
};

verus! {

/// A point on the integer grid. Any pair of coordinates is valid.
#[derive(Clone, Copy, Debug, Hash, PartialEq, Eq, Structural)]
pub struct Pos {
    pub x: i64,
    pub y: i64,
}

impl Pos {
    pub fn new(x: i64, y: i64) -> (p: Self)
        ensures
            p.x == x,
            p.y == y,
    {
        Pos { x, y }
    }

    /// Shift the point along the x axis.
    pub fn append_x(&mut self, x: i64)
        requires
            i64::MIN <= old(self).x + x <= i64::MAX,
        ensures
            final(self).x == old(self).x + x,
            final(self).y == old(self).y,
    {
        self.x = self.x + x;
    }

    /// Shift the point along the y axis.
    pub fn append_y(&mut self, y: i64)
        requires
            i64::MIN <= old(self).y + y <= i64::MAX,
        ensures
            final(self).x == old(self).x,
            final(self).y == old(self).y + y,
    {
        self.y = self.y + y;
    }

    /// Shift the point along both axes.
    pub fn append_xy(&mut self, x: i64, y: i64)
        requires
            i64::MIN <= old(self).x + x <= i64::MAX,
            i64::MIN <= old(self).y + y <= i64::MAX,
        ensures
            final(self).x == old(self).x + x,
            final(self).y == old(self).y + y,
    {
        self.x = self.x + x;
        self.y = self.y + y;
    }

    /// Component-wise difference.
    pub fn minus(self, other: Pos) -> (r: Pos)
        requires
            i64::MIN <= self.x - other.x <= i64::MAX,
            i64::MIN <= self.y - other.y <= i64::MAX,
        ensures
            r.x == self.x - other.x,
            r.y == self.y - other.y,
    {
        Pos::new(self.x - other.x, self.y - other.y)
    }

    /// Component-wise sum.
    pub fn plus(self, other: Pos) -> (r: Pos)
        requires
            i64::MIN <= self.x + other.x <= i64::MAX,
            i64::MIN <= self.y + other.y <= i64::MAX,
        ensures
            r.x == self.x + other.x,
            r.y == self.y + other.y,
    {
        Pos::new(self.x + other.x, self.y + other.y)
    }
}

/// The position an entity currently occupies; the kinematics system moves
/// it toward the entity's `EndPosition` each tick.
#[derive(Clone, Copy, Debug, PartialEq, Eq, Structural)]
pub struct StartPosition {
    pub point: Pos,
}

impl StartPosition {
    pub fn new(x: i64, y: i64) -> (s: Self)
        ensures
            s.point.x == x,
            s.point.y == y,
    {
        Self { point: Pos::new(x, y) }
    }
}

/// The target position an entity moves toward; set at creation and
/// read-only during simulation.
#[derive(Clone, Copy, Debug, PartialEq, Eq, Structural)]
pub struct EndPosition {
    pub point: Pos,
}

impl EndPosition {
    pub fn new(x: i64, y: i64) -> (s: Self)
        ensures
            s.point.x == x,
            s.point.y == y,
    {
        Self { point: Pos::new(x, y) }
    }
}

/// The per-axis step magnitude an entity covers each tick; immutable
/// during simulation.
#[derive(Clone, Copy, Debug, PartialEq, Eq, Structural)]
pub struct Velocity {
    pub x: u64,
    pub y: u64,
}

impl Velocity {
    pub fn new(x: u64, y: u64) -> (v: Self)
        ensures
            v.x == x,
            v.y == y,
    {
        Self { x, y }
    }
}

/// The closed set of asset kinds the world can hold. The substrate treats
/// a kind as an opaque comparable key and never enumerates the variants.
#[derive(Clone, Copy, Debug, Hash, PartialEq, Eq, Structural)]
pub enum AssetKind {
    Apple,
    Banana,
    Orange,
}

/// A quantity of one asset kind.
#[derive(Clone, Copy, Debug, PartialEq, Eq, Structural)]
pub struct Asset {
    pub kind: AssetKind,
    pub amount: u64,
}

impl Asset {
    pub fn new(kind: AssetKind, amount: u64) -> (a: Self)
        ensures
            a.kind == kind,
            a.amount == amount,
    {
        Asset { kind, amount }
    }
}

/// An entity's accumulated assets: a mapping from asset kind to amount
/// with unique keys. Created empty; the pickup system merges claimed
/// assets into it by summation.
#[derive(Debug)]
pub struct Inventory {
    assets: Vec<(AssetKind, u64)>,
}

impl Inventory {
    /// The pairs the inventory holds, in storage order.
    pub closed spec fn entries(self) -> Seq<(AssetKind, u64)> {
        self.assets@
    }

    /// Each kind appears at most once.
    pub open spec fn wf(self) -> bool {
        kv_unique(self.entries())
    }

    /// The accumulated amount of `kind`; zero when the kind is absent.
    pub open spec fn spec_amount(self, kind: AssetKind) -> int {
        match kv_get(self.entries(), kind) {
            Some(a) => a as int,
            None => 0,
        }
    }

    /// The sum of the amounts over all kinds.
    pub open spec fn spec_total(self) -> int {
        sum_by(self.entries(), |p: (AssetKind, u64)| p.1 as int)
    }

    pub fn new() -> (inv: Self)
        ensures
            inv.wf(),
            inv.entries().len() == 0,
            forall|k: AssetKind| inv.spec_amount(k) == 0,
            inv.spec_total() == 0,
    {
        Inventory { assets: Vec::new() }
    }

    /// Merge an asset into the inventory: add its amount to the entry of
    /// its kind, or insert the entry when the kind is absent.
    pub fn add_asset(&mut self, asset: Asset)
        requires
            old(self).wf(),
            old(self).spec_amount(asset.kind) + asset.amount <= u64::MAX,
        ensures
            final(self).wf(),
            final(self).spec_amount(asset.kind) == old(self).spec_amount(asset.kind)
                + asset.amount,
            forall|k: AssetKind|
                k != asset.kind ==> final(self).spec_amount(k) == old(self).spec_amount(k),
            final(self).spec_total() == old(self).spec_total() + asset.amount,
    {
        let ghost s0 = self.assets@;
        let n = self.assets.len();
        let mut i: usize = 0;
        while i < n
            invariant
                n == self.assets@.len(),
                0 <= i <= n,
                forall|j: int| 0 <= j < i ==> self.assets@[j].0 != asset.kind,
                self.assets@ == s0,
                s0 == old(self).assets@,
                kv_unique(s0),
                (match kv_get(s0, asset.kind) {
                    Some(a) => a + asset.amount <= u64::MAX,
                    None => true,
                }),
            decreases n - i,
        {
            if self.assets[i].0 == asset.kind {
                proof {
                    crate::kv::lemma_kv_get_present(s0, i as int);
                }
                let updated: u64 = self.assets[i].1 + asset.amount;
                self.assets[i] = (asset.kind, updated);
                proof {
                    lemma_kv_unique_update(s0, i as int, asset.kind, updated);
                    assert(forall|k: AssetKind|
                        kv_get(self.assets@, k) == (if k == asset.kind {
                            Some(updated)
                        } else {
                            kv_get(s0, k)
                        })) by {
                        assert forall|k: AssetKind|
                            kv_get(self.assets@, k) == (if k == asset.kind {
                                Some(updated)
                            } else {
                                kv_get(s0, k)
                            }) by {
                            lemma_kv_get_update(s0, i as int, asset.kind, updated, k);
                        }
                    }
                    lemma_sum_by_update(s0, |p: (AssetKind, u64)| p.1 as int, i as int, (asset.kind, updated));
                }
                return ;
            }
            i = i + 1;
        }
        proof {
            lemma_kv_get_absent(s0, asset.kind);
        }
        self.assets.push((asset.kind, asset.amount));
        proof {
            lemma_kv_unique_push(s0, asset.kind, asset.amount);
            assert(forall|k: AssetKind|
                kv_get(self.assets@, k) == (if k == asset.kind {
                    Some(asset.amount)
                } else {
                    kv_get(s0, k)
                })) by {
                assert forall|k: AssetKind|
                    kv_get(self.assets@, k) == (if k == asset.kind {
                        Some(asset.amount)
                    } else {
                        kv_get(s0, k)
                    }) by {
                    lemma_kv_get_push(s0, asset.kind, asset.amount, k);
                }
            }
            lemma_sum_by_push(s0, |p: (AssetKind, u64)| p.1 as int, (asset.kind, asset.amount));
        }
    }

    /// The accumulated amount of `kind`, zero when absent.
    pub fn amount_of(&self, kind: AssetKind) -> (r: u64)
        requires
            self.wf(),
        ensures
            r == self.spec_amount(kind),
    {
        let n = self.assets.len();
        let mut i: usize = 0;
        while i < n
            invariant
                self.wf(),
                n == self.assets@.len(),
                0 <= i <= n,
                forall|j: int| 0 <= j < i ==> self.assets@[j].0 != kind,
            decreases n - i,
        {
            if self.assets[i].0 == kind {
                proof {
                    crate::kv::lemma_kv_get_present(self.assets@, i as int);
                }
                return self.assets[i].1;
            }
            i = i + 1;
        }
        proof {
            lemma_kv_get_absent(self.assets@, kind);
        }
        0
    }

    /// No kind's accumulated amount exceeds the inventory's total, and
    /// the total is never negative.
    pub proof fn lemma_amount_le_total(self, kind: AssetKind)
        ensures
            0 <= self.spec_amount(kind),
            self.spec_amount(kind) <= self.spec_total(),
            self.spec_total() >= 0,
    {
        let f = |p: (AssetKind, u64)| p.1 as int;
        crate::kv::lemma_sum_by_nonneg(self.entries(), f);
        if kv_get(self.entries(), kind) is Some {
            lemma_kv_get_some_index(self.entries(), kind);
            let i = choose|i: int|
                0 <= i < self.entries().len() && self.entries()[i].0 == kind && kv_get(
                    self.entries(),
                    kind,
                ) == Some(self.entries()[i].1);
            crate::kv::lemma_sum_by_element_le(self.entries(), f, i);
        }
    }

    /// The number of distinct kinds held.
    pub fn kind_count(&self) -> (r: usize)
        ensures
            r == self.entries().len(),
    {
        self.assets.len()
    }
}

impl Default for Inventory {
    fn default() -> (inv: Self)
        ensures
            inv.wf(),
            inv.entries().len() == 0,
            forall|k: AssetKind| inv.spec_amount(k) == 0,
            inv.spec_total() == 0,
    {
        Inventory::new()
    }
}

/// The single global resource: a mapping from world position to the asset
/// lying there, with unique positions. The pickup system removes entries
/// as entities claim them.
#[derive(Debug)]
pub struct WorldMap {
    assets: Vec<(Pos, Asset)>,
}

impl WorldMap {
    /// The pairs the map holds, in storage order.
    pub closed spec fn entries(self) -> Seq<(Pos, Asset)> {
        self.assets@
    }

    /// Each position holds at most one asset.
    pub open spec fn wf(self) -> bool {
        kv_unique(self.entries())
    }

    /// The asset lying at `pos`, when any.
    pub open spec fn spec_get(self, pos: Pos) -> Option<Asset> {
        kv_get(self.entries(), pos)
    }

    /// The sum of all asset amounts lying on the map.
    pub open spec fn spec_total(self) -> int {
        sum_by(self.entries(), |p: (Pos, Asset)| p.1.amount as int)
    }

    pub fn new() -> (m: Self)
        ensures
            m.wf(),
            m.entries().len() == 0,
            forall|p: Pos| m.spec_get(p) is None,
            m.spec_total() == 0,
    {
        let m = WorldMap { assets: Vec::new() };
        proof {
            assert forall|p: Pos| m.spec_get(p) is None by {
                lemma_kv_get_absent(m.assets@, p);
            }
        }
        m
    }

    /// Place an asset at `pos`, replacing whatever lay there.
    pub fn insert_asset(&mut self, pos: Pos, asset: Asset)
        requires
            old(self).wf(),
        ensures
            final(self).wf(),
            final(self).spec_get(pos) == Some(asset),
            forall|q: Pos| q != pos ==> final(self).spec_get(q) == old(self).spec_get(q),
            final(self).spec_total() == old(self).spec_total() + asset.amount
                - (match old(self).spec_get(pos) {
                Some(a) => a.amount as int,
                None => 0,
            }),
    {
        let ghost s0 = self.assets@;
        let n = self.assets.len();
        let mut i: usize = 0;
        while i < n
            invariant
                n == self.assets@.len(),
                0 <= i <= n,
                forall|j: int| 0 <= j < i ==> self.assets@[j].0 != pos,
                self.assets@ == s0,
                s0 == old(self).assets@,
                kv_unique(s0),
            decreases n - i,
        {
            if self.assets[i].0 == pos {
                proof {
                    crate::kv::lemma_kv_get_present(s0, i as int);
                }
                self.assets[i] = (pos, asset);
                proof {
                    lemma_kv_unique_update(s0, i as int, pos, asset);
                    assert forall|q: Pos|
                        kv_get(self.assets@, q) == (if q == pos {
                            Some(asset)
                        } else {
                            kv_get(s0, q)
                        }) by {
                        lemma_kv_get_update(s0, i as int, pos, asset, q);
                    }
                    lemma_sum_by_update(s0, |p: (Pos, Asset)| p.1.amount as int, i as int, (pos, asset));
                }
                return ;
            }
            i = i + 1;
        }
        proof {
            lemma_kv_get_absent(s0, pos);
        }
        self.assets.push((pos, asset));
        proof {
            lemma_kv_unique_push(s0, pos, asset);
            assert forall|q: Pos|
                kv_get(self.assets@, q) == (if q == pos {
                    Some(asset)
                } else {
                    kv_get(s0, q)
                }) by {
                lemma_kv_get_push(s0, pos, asset, q);
            }
            lemma_sum_by_push(s0, |p: (Pos, Asset)| p.1.amount as int, (pos, asset));
        }
    }

    /// Remove and return the asset lying at `pos`, when any.
    pub fn remove_asset(&mut self, pos: Pos) -> (r: Option<Asset>)
        requires
            old(self).wf(),
        ensures
            final(self).wf(),
            r == old(self).spec_get(pos),
            final(self).spec_get(pos) is None,
            forall|q: Pos| q != pos ==> final(self).spec_get(q) == old(self).spec_get(q),
            final(self).spec_total() == old(self).spec_total() - (match r {
                Some(a) => a.amount as int,
                None => 0,
            }),
    {
        let ghost s0 = self.assets@;
        let n = self.assets.len();
        let mut i: usize = 0;
        while i < n
            invariant
                n == self.assets@.len(),
                0 <= i <= n,
                forall|j: int| 0 <= j < i ==> self.assets@[j].0 != pos,
                self.assets@ == s0,
                s0 == old(self).assets@,
                kv_unique(s0),
            decreases n - i,
        {
            if self.assets[i].0 == pos {
                proof {
                    crate::kv::lemma_kv_get_present(s0, i as int);
                }
                let pair = self.assets.remove(i);
                proof {
                    lemma_kv_unique_remove(s0, i as int);
                    assert forall|q: Pos|
                        kv_get(self.assets@, q) == (if q == pos {
                            None::<Asset>
                        } else {
                            kv_get(s0, q)
                        }) by {
                        lemma_kv_get_remove(s0, i as int, q);
                    }
                    lemma_sum_by_remove(s0, |p: (Pos, Asset)| p.1.amount as int, i as int);
                }
                return Some(pair.1);
            }
            i = i + 1;
        }
        proof {
            lemma_kv_get_absent(s0, pos);
        }
        None
    }

    /// The asset lying at `pos`, when any, without removing it.
    pub fn get_asset(&self, pos: Pos) -> (r: Option<&Asset>)
        requires
            self.wf(),
        ensures
            match r {
                Some(a) => self.spec_get(pos) == Some(*a),
                None => self.spec_get(pos) is None,
            },
    {
        let n = self.assets.len();
        let mut i: usize = 0;
        while i < n
            invariant
                self.wf(),
                n == self.assets@.len(),
                0 <= i <= n,
                forall|j: int| 0 <= j < i ==> self.assets@[j].0 != pos,
            decreases n - i,
        {
            if self.assets[i].0 == pos {
                proof {
                    crate::kv::lemma_kv_get_present(self.assets@, i as int);
                }
                return Some(&self.assets[i].1);
            }
            i = i + 1;
        }
        proof {
            lemma_kv_get_absent(self.assets@, pos);
        }
        None
    }

    /// An asset lying on the map carries at most the map's total
    /// amount, which is never negative.
    pub proof fn lemma_asset_le_total(self, p: Pos)
        ensures
            self.spec_total() >= 0,
            self.spec_get(p) matches Some(a) ==> a.amount <= self.spec_total(),
    {
        let f = |q: (Pos, Asset)| q.1.amount as int;
        crate::kv::lemma_sum_by_nonneg(self.entries(), f);
        if kv_get(self.entries(), p) is Some {
            lemma_kv_get_some_index(self.entries(), p);
            let i = choose|i: int|
                0 <= i < self.entries().len() && self.entries()[i].0 == p && kv_get(
                    self.entries(),
                    p,
                ) == Some(self.entries()[i].1);
            crate::kv::lemma_sum_by_element_le(self.entries(), f, i);
        }
    }

    /// The number of positions that hold an asset.
    pub fn asset_count(&self) -> (r: usize)
        ensures
            r == self.entries().len(),
    {
        self.assets.len()
    }
}

impl Default for WorldMap {
    fn default() -> (m: Self)
        ensures
            m.wf(),
            m.entries().len() == 0,
            forall|p: Pos| m.spec_get(p) is None,
            m.spec_total() == 0,
    {
        WorldMap::new()
    }
}

} // verus!
