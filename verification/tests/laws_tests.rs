use clrs::ai::conflict_target;
use clrs::buildings::{simulate_line, Line};
use clrs::color::{TileColor, TileColorStrength};
use clrs::conflicts::ColorConflicts;
use clrs::draw::territory_bar_level;
use clrs::grid::{TileClaim, TileGrid, TilePos, TileState, TileType, TilemapSize};
use clrs::objects::ObjectId;
use clrs::pathfinding::simple_reach;
use clrs::settings::{GameBuildSettings, GameDifficulty};
use clrs::tile_lists::TileLists;

fn pos(x: u32, y: u32) -> TilePos {
    TilePos { x, y }
}

#[test]
fn a_stronger_reach_covers_a_weaker_one() {
    let mut g = TileGrid::new_filled(TilemapSize { x: 6, y: 6 }, TileType::Colorable);
    g.set_tile(pos(2, 2), Some(TileState { tile_type: TileType::NonColorable, claim: None, has_building: false, has_ability: false }));
    let weak: Vec<TilePos> = simple_reach(&g, pos(1, 1), 2).iter().map(|e| e.0).collect();
    let strong: Vec<TilePos> = simple_reach(&g, pos(1, 1), 4).iter().map(|e| e.0).collect();
    assert!(weak.iter().all(|p| strong.contains(p)));
    assert!(!strong.contains(&pos(2, 2)));
}

#[test]
fn removing_an_object_twice_is_removing_it_once() {
    let mut lists: TileLists<ObjectId> = TileLists::new();
    lists.add(pos(0, 0), ObjectId { id: 1 });
    lists.add(pos(0, 0), ObjectId { id: 2 });
    lists.add(pos(0, 0), ObjectId { id: 1 });
    lists.remove(pos(0, 0), ObjectId { id: 1 });
    let once = lists.get(pos(0, 0));
    lists.remove(pos(0, 0), ObjectId { id: 1 });
    assert_eq!(lists.get(pos(0, 0)), once);
    assert_eq!(once, vec![ObjectId { id: 2 }]);
}

#[test]
fn settings_buttons_undo_each_other_inside_the_ranges() {
    let start = GameBuildSettings { map_size: 50, enemy_count: 2 };
    let mut s = start;
    s.increase_map_size(true);
    s.decrease_map_size(true);
    s.increase_enemy_count();
    s.decrease_enemy_count();
    assert_eq!(s, start);
    let mut d = GameDifficulty::Easy.increase_difficulty();
    d = d.decrease_difficulty();
    assert_eq!(d, GameDifficulty::Easy);
}

#[test]
fn harder_computer_players_act_more_often() {
    let speeds = [GameDifficulty::Easy, GameDifficulty::Medium, GameDifficulty::Hard].map(|d| d.ai_building_speed());
    for w in speeds.windows(2) {
        assert!((w[0].0 as u64) * (w[1].1 as u64) <= (w[1].0 as u64) * (w[0].1 as u64));
    }
}

#[test]
fn a_bar_never_shrinks_as_a_player_gains_tiles() {
    let mut last = 0;
    for count in 0..=120 {
        let level = territory_bar_level(count, 100);
        assert!(level >= last);
        last = level;
    }
}

#[test]
fn line_requests_are_for_tiles_of_the_map() {
    let g = TileGrid::new_filled(TilemapSize { x: 3, y: 3 }, TileType::Colorable);
    let cache = vec![pos(1, 1), pos(1, 2), pos(5, 5), pos(2, 1)];
    let mut events = vec![];
    simulate_line(&g, ObjectId { id: 1 }, 0, pos(1, 1), &Line { strength: 1, hits_per_tile: 1, max_changed_per_side: 2 }, &cache, &mut events);
    assert!(!events.is_empty());
    assert!(events.iter().all(|e| g.get(e.tile_pos).is_some()));
}

#[test]
fn computer_players_fortify_only_their_own_free_tiles() {
    let mut g = TileGrid::new_filled(TilemapSize { x: 3, y: 1 }, TileType::Colorable);
    let owned = |player: usize, has_ability: bool| {
        Some(TileState {
            tile_type: TileType::Colorable,
            claim: Some(TileClaim { player, color: TileColor { tile_color_strength: TileColorStrength::Two } }),
            has_building: false,
            has_ability,
        })
    };
    g.set_tile(pos(0, 0), owned(1, true));
    g.set_tile(pos(1, 0), owned(2, false));
    g.set_tile(pos(2, 0), owned(1, false));
    let mut c = ColorConflicts::new();
    for x in 0..3 {
        c.register_conflict(pos(x, 0), 2, 7);
    }
    assert_eq!(conflict_target(&g, &c, 1, true), Some((pos(2, 0), 1)));
}
