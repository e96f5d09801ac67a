use clrs::color::{TileColor, TileColorStrength};
use clrs::conflicts::{
    check_if_tile_is_colorable, register_guaranteed_color_conflict, update_color_conflicts, ColorConflictEvent, ColorConflictGuarantees,
    ColorConflicts, ConflictType, IsColorableNodeCheck, NodeIsPlayersCheck, PlayerTileChangedCount,
};
use clrs::grid::{TileClaim, TileGrid, TilePos, TileState, TileType, TilemapSize};
use clrs::objects::{ObjectId, TileToObjectIndex};
use clrs::points::{PlayerPoints, PlayerRecord};
use clrs::resolve::{find_conflict_winner, handle_color_conflict_guarantees, handle_color_conflicts};

fn pos(x: u32, y: u32) -> TilePos {
    TilePos { x, y }
}

fn claimed(player: usize, s: TileColorStrength) -> TileState {
    TileState {
        tile_type: TileType::Colorable,
        claim: Some(TileClaim { player, color: TileColor { tile_color_strength: s } }),
        has_building: false,
        has_ability: false,
    }
}

fn event(object: usize, p: TilePos, player: usize) -> ColorConflictEvent {
    ColorConflictEvent { from_object: ObjectId { id: object }, tile_pos: p, player }
}

fn players(n: usize) -> Vec<PlayerRecord> {
    (0..n).map(|id| PlayerRecord { id, points: PlayerPoints { building_points: 50, ability_points: 0 } }).collect()
}

#[test]
fn tile_is_colorable_unless_wall_or_full_own() {
    let wall = TileState { tile_type: TileType::NonColorable, claim: None, has_building: false, has_ability: false };
    assert!(!check_if_tile_is_colorable(Some(wall), 0));
    assert!(!check_if_tile_is_colorable(None, 0));
    assert!(!check_if_tile_is_colorable(Some(claimed(1, TileColorStrength::Five)), 1));
    assert!(check_if_tile_is_colorable(Some(claimed(1, TileColorStrength::Five)), 2));
    assert!(check_if_tile_is_colorable(Some(claimed(1, TileColorStrength::Four)), 1));
}

#[test]
fn node_checks() {
    let wall = TileState { tile_type: TileType::NonColorable, claim: None, has_building: false, has_ability: false };
    assert!(!IsColorableNodeCheck.is_valid_move(Some(wall)));
    assert!(IsColorableNodeCheck.is_valid_move(Some(claimed(0, TileColorStrength::One))));
    assert!(NodeIsPlayersCheck.is_valid_move(Some(3), Some(claimed(3, TileColorStrength::One))));
    assert!(!NodeIsPlayersCheck.is_valid_move(Some(2), Some(claimed(3, TileColorStrength::One))));
    assert!(!NodeIsPlayersCheck.is_valid_move(None, Some(claimed(3, TileColorStrength::One))));
}

#[test]
fn winner_is_the_first_with_most_requests() {
    assert_eq!(find_conflict_winner(&vec![(2, 0), (1, 1), (1, 2), (2, 3)]), 2);
    assert_eq!(find_conflict_winner(&vec![(2, 0), (1, 1), (1, 2)]), 1);
}

#[test]
fn registering_keeps_requests_per_tile_in_order() {
    let mut c = ColorConflicts::new();
    let events = vec![event(7, pos(0, 0), 1), event(8, pos(1, 0), 2), event(9, pos(0, 0), 2)];
    update_color_conflicts(&mut c, &events, &vec![]);
    assert_eq!(c.conflicts.get(pos(0, 0)), vec![(1, 7), (2, 9)]);
    assert_eq!(c.conflicts.get(pos(1, 0)), vec![(2, 8)]);
    assert_eq!(c.conflicts.get(pos(2, 0)), vec![]);
}

#[test]
fn registering_a_guarantee_swaps_the_caster_and_neutral_flags() {
    let mut c = ColorConflicts::new();
    let g = ColorConflictGuarantees {
        tile_pos: pos(1, 1),
        casting_player: 3,
        affect_casting_player: true,
        affect_neutral: false,
        affect_other_players: false,
        conflict_type: ConflictType::Stengthen,
    };
    update_color_conflicts(&mut c, &vec![], &vec![g]);
    assert_eq!(c.guaranteed_conflicts.get(pos(1, 1)), vec![(3, false, true, false, ConflictType::Stengthen)]);
}

#[test]
fn conflicts_claim_neutral_tiles_and_damage_others() {
    let mut grid = TileGrid::new_filled(TilemapSize { x: 3, y: 1 }, TileType::Colorable);
    grid.set_tile(pos(1, 0), Some(claimed(2, TileColorStrength::One)));
    grid.set_tile(pos(2, 0), Some(claimed(1, TileColorStrength::Two)));
    let mut c = ColorConflicts::new();
    c.register_conflict(pos(0, 0), 1, 10);
    c.register_conflict(pos(0, 0), 1, 11);
    c.register_conflict(pos(0, 0), 2, 12);
    c.register_conflict(pos(1, 0), 1, 10);
    c.register_conflict(pos(2, 0), 1, 10);
    let mut counts = PlayerTileChangedCount { player_gained_tiles: 5, player_lost_tiles: 5 };
    let mut ps = players(3);
    let index = TileToObjectIndex::new();
    let wakes = handle_color_conflicts(&mut c, &mut counts, &mut grid, &mut ps, &index);
    assert!(wakes.is_empty());
    assert_eq!(grid.get(pos(0, 0)), Some(claimed(1, TileColorStrength::One)));
    let lost = grid.get(pos(1, 0)).unwrap();
    assert_eq!(lost.claim, None);
    assert_eq!(grid.get(pos(2, 0)), Some(claimed(1, TileColorStrength::Three)));
    assert_eq!(counts, PlayerTileChangedCount { player_gained_tiles: 1, player_lost_tiles: 0 });
    assert_eq!(ps[1].points.ability_points, 1);
    assert_eq!(ps[0].points.ability_points, 0);
    assert_eq!(c.conflicts.len(), 0);
}

#[test]
fn guarantees_strengthen_own_and_damage_others() {
    let mut grid = TileGrid::new_filled(TilemapSize { x: 3, y: 1 }, TileType::Colorable);
    grid.set_tile(pos(0, 0), Some(claimed(0, TileColorStrength::Two)));
    grid.set_tile(pos(1, 0), Some(claimed(1, TileColorStrength::One)));
    let mut c = ColorConflicts::new();
    c.register_conflict_guarantee(pos(0, 0), 0, true, false, false, ConflictType::Stengthen);
    c.register_conflict_guarantee(pos(1, 0), 0, false, false, true, ConflictType::Damage);
    c.register_conflict_guarantee(pos(2, 0), 0, false, true, false, ConflictType::Natural);
    let mut counts = PlayerTileChangedCount { player_gained_tiles: 0, player_lost_tiles: 0 };
    let index = TileToObjectIndex::new();
    handle_color_conflict_guarantees(&mut c, &mut counts, &mut grid, &index);
    assert_eq!(grid.get(pos(0, 0)), Some(claimed(0, TileColorStrength::Three)));
    assert_eq!(grid.get(pos(1, 0)).unwrap().claim, None);
    assert_eq!(grid.get(pos(2, 0)), Some(claimed(0, TileColorStrength::One)));
    assert_eq!(counts.player_gained_tiles, 1);
    assert_eq!(c.guaranteed_conflicts.len(), 0);
}

#[test]
fn a_guarantee_check_says_whether_the_tile_is_the_players() {
    let mine = Some(TileClaim { player: 1, color: TileColor { tile_color_strength: TileColorStrength::Two } });
    let theirs = Some(TileClaim { player: 2, color: TileColor { tile_color_strength: TileColorStrength::Two } });
    let mut events = Vec::new();
    assert!(register_guaranteed_color_conflict(&1, false, false, false, ConflictType::Damage, pos(0, 0), TileType::Colorable, &mine, &mut events));
    assert!(events.is_empty());
    assert!(register_guaranteed_color_conflict(&1, false, false, true, ConflictType::Damage, pos(0, 0), TileType::Colorable, &mine, &mut events));
    assert_eq!(events.len(), 1);
    events.clear();
    assert!(register_guaranteed_color_conflict(&1, true, false, false, ConflictType::Stengthen, pos(0, 0), TileType::Colorable, &mine, &mut events));
    assert_eq!(events.len(), 1);
    assert!(!register_guaranteed_color_conflict(&1, true, false, true, ConflictType::Damage, pos(1, 0), TileType::Colorable, &theirs, &mut events));
    assert_eq!(events.len(), 2);
    assert!(!register_guaranteed_color_conflict(&1, true, true, true, ConflictType::Damage, pos(2, 0), TileType::Colorable, &None, &mut events));
    assert_eq!(events.len(), 3);
    assert!(events[2].affect_neutral);
    assert!(!register_guaranteed_color_conflict(&1, true, true, true, ConflictType::Damage, pos(3, 0), TileType::NonColorable, &mine, &mut events));
    assert_eq!(events.len(), 3);
}
