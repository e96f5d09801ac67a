use clrs::abilities::{
    expand_target_tiles, fortify_target_tiles, push_guarantees, simulate_fortify, simulate_nuke, Abilities, AbilityKind,
    Expand, Fortify, Nuke, SpawnAbility, SpawnAbilityError,
};
use clrs::color::{TileColor, TileColorStrength};
use clrs::conflicts::{ColorConflictGuarantees, ConflictType};
use clrs::grid::{TileClaim, TileGrid, TilePos, TileState, TileType, TilemapSize};
use clrs::pathfinding::simple_reach;
use clrs::points::{PlayerPoints, PlayerRecord};

fn pos(x: u32, y: u32) -> TilePos {
    TilePos { x, y }
}

fn grid() -> TileGrid {
    let mut g = TileGrid::new_filled(TilemapSize { x: 3, y: 3 }, TileType::Colorable);
    g.set_tile(
        pos(1, 1),
        Some(TileState {
            tile_type: TileType::Colorable,
            claim: Some(TileClaim { player: 1, color: TileColor { tile_color_strength: TileColorStrength::Two } }),
            has_building: false,
            has_ability: false,
        }),
    );
    g.set_tile(pos(2, 2), Some(TileState { tile_type: TileType::NonColorable, claim: None, has_building: false, has_ability: false }));
    g
}

fn players(points: u32) -> Vec<PlayerRecord> {
    vec![
        PlayerRecord { id: 0, points: PlayerPoints { building_points: 50, ability_points: points } },
        PlayerRecord { id: 1, points: PlayerPoints { building_points: 50, ability_points: points } },
    ]
}

fn request(ability_type: Abilities, player_id: usize, p: TilePos) -> SpawnAbility {
    SpawnAbility { ability_type, player_id, target_tile_pos: p }
}

#[test]
fn unknown_player_is_refused() {
    let mut ps = players(60);
    let r = request(Abilities::Nuke, 7, pos(0, 0)).execute(&mut ps, &grid());
    assert_eq!(r, Err(SpawnAbilityError::PlayerNotFound));
    assert_eq!(ps, players(60));
}

#[test]
fn nuke_costs_fifty_points() {
    let mut ps = players(60);
    let r = request(Abilities::Nuke, 0, pos(0, 0)).execute(&mut ps, &grid()).unwrap();
    assert_eq!(r.ability, AbilityKind::Nuke(Nuke { strength: 5, min_tile_damage: 2, max_tile_damage: 4 }));
    assert_eq!(r.timer_ticks, 2);
    assert_eq!(ps[0].points.ability_points, 10);
    assert_eq!(ps[1].points.ability_points, 60);
}

#[test]
fn too_few_points_are_refused() {
    let mut ps = players(49);
    let r = request(Abilities::Nuke, 0, pos(0, 0)).execute(&mut ps, &grid());
    assert_eq!(r, Err(SpawnAbilityError::NotEnoughPoints));
}

#[test]
fn fortify_needs_a_claimed_tile_of_the_caster() {
    let g = grid();
    let mut ps = players(60);
    assert_eq!(request(Abilities::Fortify, 1, pos(0, 0)).execute(&mut ps, &g), Err(SpawnAbilityError::TileNotClaimed));
    assert_eq!(request(Abilities::Fortify, 1, pos(5, 5)).execute(&mut ps, &g), Err(SpawnAbilityError::TileNotFound));
    assert_eq!(request(Abilities::Fortify, 0, pos(1, 1)).execute(&mut ps, &g), Err(SpawnAbilityError::NotEnoughPoints));
    let ok = request(Abilities::Fortify, 1, pos(1, 1)).execute(&mut ps, &g).unwrap();
    assert_eq!(ok.ability, AbilityKind::Fortify(Fortify { strength: 5, min_tile_strengthen: 3, max_tile_strengthen: 5 }));
    assert_eq!(ps[1].points.ability_points, 10);
}

#[test]
fn expand_needs_a_colorable_tile() {
    let g = grid();
    let mut ps = players(60);
    assert_eq!(request(Abilities::Expand, 0, pos(2, 2)).execute(&mut ps, &g), Err(SpawnAbilityError::TileNotColorable));
    let ok = request(Abilities::Expand, 0, pos(0, 2)).execute(&mut ps, &g).unwrap();
    assert_eq!(ok.ability, AbilityKind::Expand(Expand { strength: 2, min_tile_strengthen: 1, max_tile_strengthen: 2 }));
    assert_eq!(ok.position, pos(0, 2));
    assert_eq!(ok.cooldown_millis, 100);
}

#[test]
fn error_messages() {
    assert_eq!(SpawnAbilityError::PlayerNotFound.message(), "Failed to Find Player ID");
    assert_eq!(SpawnAbilityError::NotEnoughPoints.message(), "Not enough points to place");
    assert_eq!(SpawnAbilityError::TileNotColorable.message(), "Tile is not a Colorable Tile");
}


fn held(player: usize) -> Option<TileState> {
    Some(TileState {
        tile_type: TileType::Colorable,
        claim: Some(TileClaim { player, color: TileColor { tile_color_strength: TileColorStrength::One } }),
        has_building: false,
        has_ability: false,
    })
}

#[test]
fn guarantees_are_pushed_per_tile_in_order() {
    let mut events = vec![];
    push_guarantees(&mut events, &vec![pos(0, 0), pos(1, 0)], &vec![2, 1], 3, true, false, true, ConflictType::Damage);
    let g = |p: TilePos| ColorConflictGuarantees {
        tile_pos: p,
        casting_player: 3,
        affect_casting_player: true,
        affect_neutral: false,
        affect_other_players: true,
        conflict_type: ConflictType::Damage,
    };
    assert_eq!(events, vec![g(pos(0, 0)), g(pos(0, 0)), g(pos(1, 0))]);
}

#[test]
fn nuke_damages_each_tile_between_its_bounds() {
    let cache = vec![pos(0, 0), pos(1, 0), pos(2, 0)];
    let nuke = Nuke { strength: 5, min_tile_damage: 2, max_tile_damage: 4 };
    let mut events = vec![];
    assert!(!simulate_nuke(0, &nuke, 1, &cache, &mut events));
    for p in cache.iter() {
        let n = events.iter().filter(|e| e.tile_pos == *p).count();
        assert!((2..=4).contains(&n));
    }
    assert!(events.iter().all(|e| e.conflict_type == ConflictType::Damage && e.affect_neutral));
    let mut events = vec![];
    assert!(simulate_nuke(0, &nuke, 0, &cache, &mut events));
}

#[test]
fn expand_targets_touch_the_casters_territory() {
    let mut g = TileGrid::new_filled(TilemapSize { x: 4, y: 1 }, TileType::Colorable);
    g.set_tile(pos(0, 0), held(2));
    let cache = vec![pos(0, 0), pos(1, 0), pos(2, 0), pos(3, 0)];
    assert_eq!(expand_target_tiles(&g, 2, &cache), vec![pos(0, 0), pos(1, 0)]);
    assert_eq!(expand_target_tiles(&g, 1, &cache), vec![]);
}

#[test]
fn fortify_strengthens_the_casters_tiles_in_reach() {
    let mut g = TileGrid::new_filled(TilemapSize { x: 4, y: 1 }, TileType::Colorable);
    g.set_tile(pos(0, 0), held(1));
    g.set_tile(pos(1, 0), held(1));
    g.set_tile(pos(2, 0), held(2));
    g.set_tile(pos(3, 0), held(1));
    let listing = simple_reach(&g, pos(0, 0), 5);
    assert_eq!(fortify_target_tiles(&g, 1, &listing), vec![pos(1, 0), pos(3, 0)]);
    let fortify = Fortify { strength: 5, min_tile_strengthen: 3, max_tile_strengthen: 5 };
    let mut events = vec![];
    assert!(!simulate_fortify(&g, 1, pos(0, 0), &fortify, 4, &mut events));
    assert_eq!(events.iter().filter(|e| e.tile_pos == pos(0, 0)).count(), 2);
    let on_one = events.iter().filter(|e| e.tile_pos == pos(1, 0)).count();
    assert!((3..=4).contains(&on_one));
    assert_eq!(events.iter().filter(|e| e.tile_pos == pos(2, 0)).count(), 0);
    assert!(events.iter().all(|e| e.conflict_type == ConflictType::Stengthen && !e.affect_neutral));
}
