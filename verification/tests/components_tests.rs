use ecs_experiment::components::{Asset, AssetKind, Inventory, Pos, WorldMap};

#[test]
fn test_map() {
    let asset_apple = Asset::new(AssetKind::Apple, 5);
    let mut map = WorldMap::new();
    let pos = Pos::new(2, 4);
    map.insert_asset(pos, asset_apple);

    let v = map.remove_asset(pos);
    assert!(v.is_some());

    {
        let v = v.unwrap();
        matches!(v.kind, AssetKind::Apple);
        assert_eq!(v.amount, 5);
    }
}

#[test]
fn test_map_second_removal_empty() {
    let mut map = WorldMap::new();
    let pos = Pos::new(2, 4);
    map.insert_asset(pos, Asset::new(AssetKind::Banana, 3));
    assert!(map.remove_asset(pos).is_some());
    assert!(map.remove_asset(pos).is_none());
    assert_eq!(map.asset_count(), 0);
}

#[test]
fn test_map_replaces_on_same_position() {
    let mut map = WorldMap::new();
    let pos = Pos::new(0, 0);
    map.insert_asset(pos, Asset::new(AssetKind::Apple, 1));
    map.insert_asset(pos, Asset::new(AssetKind::Orange, 9));
    let got = map.remove_asset(pos).unwrap();
    assert!(matches!(got.kind, AssetKind::Orange));
    assert_eq!(got.amount, 9);
}

#[test]
fn test_inventory_merges_by_summation() {
    let mut inv = Inventory::new();
    inv.add_asset(Asset::new(AssetKind::Apple, 5));
    assert_eq!(inv.amount_of(AssetKind::Apple), 5);
    inv.add_asset(Asset::new(AssetKind::Apple, 7));
    assert_eq!(inv.amount_of(AssetKind::Apple), 12);
    inv.add_asset(Asset::new(AssetKind::Banana, 2));
    assert_eq!(inv.amount_of(AssetKind::Apple), 12);
    assert_eq!(inv.amount_of(AssetKind::Banana), 2);
    assert_eq!(inv.amount_of(AssetKind::Orange), 0);
    assert_eq!(inv.kind_count(), 2);
}

#[test]
fn test_pos_arithmetic() {
    let mut p = Pos::new(1, 2);
    p.append_x(3);
    assert_eq!(p, Pos::new(4, 2));
    p.append_y(-5);
    assert_eq!(p, Pos::new(4, -3));
    p.append_xy(1, 1);
    assert_eq!(p, Pos::new(5, -2));
    let d = Pos::new(7, 7).minus(Pos::new(2, 3));
    assert_eq!(d, Pos::new(5, 4));
    let s = Pos::new(7, 7).plus(Pos::new(2, 3));
    assert_eq!(s, Pos::new(9, 10));
}
