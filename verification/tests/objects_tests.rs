use clrs::color::{TileColor, TileColorStrength};
use clrs::grid::{TileClaim, TileGrid, TilePos, TileState, TileType, TilemapSize};
use clrs::objects::{
    add_to_index, cache_object, destroy_abilities, destroy_buildings, remove_from_index, uncache_object, ObjectId,
    PlacedObject, ReachShape, TileToObjectIndex,
};
use clrs::tile_lists::TileLists;

fn pos(x: u32, y: u32) -> TilePos {
    TilePos { x, y }
}

fn owned(player: usize) -> Option<TileState> {
    Some(TileState {
        tile_type: TileType::Colorable,
        claim: Some(TileClaim { player, color: TileColor { tile_color_strength: TileColorStrength::One } }),
        has_building: true,
        has_ability: true,
    })
}

#[test]
fn index_lists_objects_per_tile_and_removal_undoes_adding() {
    let mut index: TileToObjectIndex = TileLists::new();
    let a = ObjectId { id: 1 };
    let b = ObjectId { id: 2 };
    let listing_a = vec![(pos(0, 0), 0), (pos(1, 0), 1)];
    let listing_b = vec![(pos(1, 0), 0)];
    add_to_index(&mut index, a, &listing_a);
    add_to_index(&mut index, b, &listing_b);
    assert_eq!(index.get(pos(1, 0)), vec![a, b]);
    remove_from_index(&mut index, b, &listing_b);
    assert_eq!(index.get(pos(1, 0)), vec![a]);
    assert_eq!(index.get(pos(0, 0)), vec![a]);
    remove_from_index(&mut index, a, &listing_a);
    assert_eq!(index.get(pos(1, 0)), vec![]);
}

#[test]
fn caching_an_object_records_its_reach() {
    let g = TileGrid::new_filled(TilemapSize { x: 3, y: 1 }, TileType::Colorable);
    let mut index: TileToObjectIndex = TileLists::new();
    let id = ObjectId { id: 9 };
    let cache = cache_object(&g, &mut index, id, pos(0, 0), 1, ReachShape::Spread);
    assert_eq!(cache.cache, vec![pos(0, 0), pos(1, 0)]);
    assert_eq!(index.get(pos(1, 0)), vec![id]);
    assert_eq!(index.get(pos(2, 0)), vec![]);
    uncache_object(&g, &mut index, id, pos(0, 0), 1, ReachShape::Spread);
    assert_eq!(index.get(pos(0, 0)), vec![]);
}

#[test]
fn buildings_on_tiles_of_others_are_lost() {
    let mut g = TileGrid::new_filled(TilemapSize { x: 3, y: 1 }, TileType::Colorable);
    g.set_tile(pos(0, 0), owned(1));
    g.set_tile(pos(1, 0), owned(2));
    let buildings = vec![
        PlacedObject { id: ObjectId { id: 1 }, player: 1, tile_pos: pos(0, 0) },
        PlacedObject { id: ObjectId { id: 2 }, player: 1, tile_pos: pos(1, 0) },
        PlacedObject { id: ObjectId { id: 3 }, player: 1, tile_pos: pos(2, 0) },
    ];
    assert_eq!(destroy_buildings(&g, &buildings), vec![ObjectId { id: 2 }]);
}

#[test]
fn destroyed_abilities_free_their_tiles() {
    let mut g = TileGrid::new_filled(TilemapSize { x: 2, y: 1 }, TileType::Colorable);
    g.set_tile(pos(0, 0), owned(1));
    g.set_tile(pos(1, 0), owned(1));
    let abilities = vec![PlacedObject { id: ObjectId { id: 4 }, player: 1, tile_pos: pos(1, 0) }];
    assert_eq!(destroy_abilities(&mut g, &abilities), vec![ObjectId { id: 4 }]);
    assert!(!g.get(pos(1, 0)).unwrap().has_ability);
    assert!(g.get(pos(1, 0)).unwrap().has_building);
    assert!(g.get(pos(0, 0)).unwrap().has_ability);
}
