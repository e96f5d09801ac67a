use clrs::buildings::{get_side_index, simulate_line, simulate_pulser, simulate_scatter, Line, Pulser, Scatter};
use clrs::color::{TileColor, TileColorStrength};
use clrs::conflicts::ColorConflictEvent;
use clrs::grid::{TileClaim, TileGrid, TilePos, TileState, TileType, TilemapSize};
use clrs::objects::ObjectId;
use clrs::pathfinding::{line_reach, simple_reach};

fn pos(x: u32, y: u32) -> TilePos {
    TilePos { x, y }
}

fn full(player: usize) -> Option<TileState> {
    Some(TileState {
        tile_type: TileType::Colorable,
        claim: Some(TileClaim { player, color: TileColor { tile_color_strength: TileColorStrength::Five } }),
        has_building: false,
        has_ability: false,
    })
}

fn tiles(events: &[ColorConflictEvent]) -> Vec<TilePos> {
    events.iter().map(|e| e.tile_pos).collect()
}

#[test]
fn side_index_names_the_arm() {
    let s = pos(5, 5);
    assert_eq!(get_side_index(s, pos(3, 5)), 0);
    assert_eq!(get_side_index(s, pos(5, 7)), 1);
    assert_eq!(get_side_index(s, pos(8, 5)), 2);
    assert_eq!(get_side_index(s, pos(5, 1)), 3);
}

#[test]
fn pulser_asks_for_the_nearest_tiles_it_can_change() {
    let mut g = TileGrid::new_filled(TilemapSize { x: 4, y: 1 }, TileType::Colorable);
    g.set_tile(pos(0, 0), full(1));
    let cache: Vec<TilePos> = simple_reach(&g, pos(0, 0), 3).iter().map(|e| e.0).collect();
    let mut events = vec![];
    let pulser = Pulser { strength: 3, max_pulse_tiles: 3 };
    assert!(simulate_pulser(&g, ObjectId { id: 1 }, 1, &pulser, &cache, &mut events));
    assert_eq!(tiles(&events), vec![pos(1, 0), pos(2, 0), pos(3, 0)]);
    assert!(events.iter().all(|e| e.player == 1 && e.from_object == ObjectId { id: 1 }));
}

#[test]
fn pulser_with_nothing_to_change_rests() {
    let mut g = TileGrid::new_filled(TilemapSize { x: 2, y: 1 }, TileType::Colorable);
    g.set_tile(pos(0, 0), full(1));
    g.set_tile(pos(1, 0), full(1));
    let cache = vec![pos(0, 0), pos(1, 0)];
    let mut events = vec![];
    assert!(!simulate_pulser(&g, ObjectId { id: 1 }, 1, &Pulser { strength: 1, max_pulse_tiles: 3 }, &cache, &mut events));
    assert!(events.is_empty());
}

#[test]
fn pulser_keeps_the_first_target_when_trimming() {
    let g = TileGrid::new_filled(TilemapSize { x: 9, y: 1 }, TileType::Colorable);
    let cache: Vec<TilePos> = (0..9).map(|x| pos(x, 0)).collect();
    for _ in 0..10 {
        let mut events = vec![];
        simulate_pulser(&g, ObjectId { id: 1 }, 1, &Pulser { strength: 8, max_pulse_tiles: 2 }, &cache, &mut events);
        assert_eq!(events.len(), 2);
        assert_eq!(events[0].tile_pos, pos(0, 0));
        assert!(events[1].tile_pos.x >= 1 && events[1].tile_pos.x <= 4);
    }
}

#[test]
fn scatter_picks_tiles_from_its_cache() {
    let g = TileGrid::new_filled(TilemapSize { x: 3, y: 3 }, TileType::Colorable);
    let cache: Vec<TilePos> = simple_reach(&g, pos(1, 1), 1).iter().map(|e| e.0).collect();
    let mut events = vec![];
    assert!(simulate_scatter(&g, ObjectId { id: 2 }, 0, &Scatter { scatter_range: 1, scatter_amount: 4 }, &cache, &mut events));
    assert_eq!(events.len(), 5);
    assert!(events.iter().all(|e| cache.contains(&e.tile_pos)));
}

#[test]
fn line_hits_each_tile_and_fills_each_arm_to_its_limit() {
    let g = TileGrid::new_filled(TilemapSize { x: 5, y: 1 }, TileType::Colorable);
    let cache: Vec<TilePos> = line_reach(&g, pos(2, 0), 2).iter().map(|e| e.0).collect();
    let line = Line { strength: 2, hits_per_tile: 2, max_changed_per_side: 3 };
    let mut events = vec![];
    assert!(simulate_line(&g, ObjectId { id: 3 }, 1, pos(2, 0), &line, &cache, &mut events));
    let hit = tiles(&events);
    assert_eq!(hit.iter().filter(|p| **p == pos(3, 0)).count(), 2);
    assert_eq!(hit.iter().filter(|p| **p == pos(4, 0)).count(), 1);
    assert_eq!(hit.iter().filter(|p| **p == pos(1, 0)).count(), 2);
    assert_eq!(hit.iter().filter(|p| **p == pos(0, 0)).count(), 1);
}
