use clrs::abilities::SpawnAbilityError;
use clrs::buildings::BuildingTypes;
use clrs::end_game::{GameEndConditions, GameEnded};
use clrs::game::{new_game, BuildingKind, GameWorld};
use clrs::grid::TilePos;
use clrs::settings::GameBuildSettings;

fn held_by(world: &GameWorld, player: usize) -> usize {
    let mut n = 0;
    for i in 0..world.grid.cell_count() {
        if let Some(t) = world.grid.cell(i) {
            if let Some(c) = t.claim {
                if c.player == player {
                    n += 1;
                }
            }
        }
    }
    n
}

#[test]
fn a_new_game_has_four_players_and_a_pulser_per_side() {
    let w = new_game(&GameBuildSettings { map_size: 30, enemy_count: 2 });
    assert_eq!(w.players.len(), 4);
    assert_eq!(w.actions.len(), 4);
    assert!(w.players.iter().all(|p| p.points.building_points == 50 && p.points.ability_points == 0));
    assert_eq!(w.buildings.len(), 3);
    assert_eq!(w.buildings[1].position, TilePos { x: 23, y: 23 });
    assert!(matches!(w.buildings[0].kind, BuildingKind::Pulser(_)));
    assert_eq!(held_by(&w, 0), 0);
    assert!(!w.caches[0].is_empty());
    assert_eq!(w.caches[0][0], w.buildings[0].position);
    assert!(w.buildings.iter().all(|b| w.grid.get(b.position).unwrap().has_building));
    assert!(!w.grid.get(TilePos { x: 0, y: 0 }).unwrap().has_building);
    assert!(!w.grid.get(TilePos { x: 7, y: 23 }).unwrap().has_building);
}

#[test]
fn the_first_step_claims_the_tiles_around_each_pulser() {
    let mut w = new_game(&GameBuildSettings { map_size: 30, enemy_count: 1 });
    w.step();
    assert!(held_by(&w, 0) > 0);
    assert!(held_by(&w, 1) > 0);
    assert!(!w.buildings[0].active);
    assert_eq!(w.buildings[0].cooldown_ticks, 20);
}

#[test]
fn a_long_game_keeps_its_players() {
    let mut w = new_game(&GameBuildSettings { map_size: 30, enemy_count: 1 });
    for _ in 0..200 {
        w.step();
        let end = w.post_step(GameEndConditions::Domination);
        assert!(end.is_none() || end == Some(GameEnded { player_won: true, winning_id: 0 }) || end.map(|e| !e.player_won).unwrap_or(false));
    }
    assert_eq!(w.players.len(), 4);
    assert!(w.players.iter().all(|p| p.points.building_points <= 200 && p.points.ability_points <= 150));
    assert!(held_by(&w, 0) > 0);
}

#[test]
fn points_are_paid_on_the_first_post_step() {
    let mut w = new_game(&GameBuildSettings { map_size: 30, enemy_count: 1 });
    assert_eq!(w.points_timer, 0);
    w.post_step(GameEndConditions::Domination);
    assert_eq!(w.points_timer, 100);
    w.post_step(GameEndConditions::Domination);
    assert_eq!(w.points_timer, 99);
}

#[test]
fn an_empty_map_is_a_win_by_domination_for_the_player() {
    let mut w = new_game(&GameBuildSettings { map_size: 30, enemy_count: 1 });
    assert_eq!(w.post_step(GameEndConditions::Domination), Some(GameEnded { player_won: true, winning_id: 0 }));
}

#[test]
fn ability_requests_are_placed_and_paid_for() {
    let mut w = new_game(&GameBuildSettings { map_size: 30, enemy_count: 1 });
    w.players[1].points.ability_points = 60;
    w.actions[1].try_place_ability = true;
    w.actions[1].ability_tile_pos = Some(TilePos { x: 5, y: 5 });
    w.actions[2].try_place_ability = true;
    w.actions[2].ability_tile_pos = Some(TilePos { x: 6, y: 6 });
    let results = w.place_ability(None);
    assert_eq!(results.len(), 2);
    assert!(results[0].is_ok());
    assert_eq!(results[1], Err(SpawnAbilityError::NotEnoughPoints));
    assert_eq!(w.players[1].points.ability_points, 10);
    assert_eq!(w.abilities.len(), 1);
    assert_eq!(w.abilities[0].spawn.position, TilePos { x: 5, y: 5 });
    assert_eq!(w.abilities[0].spawn.player, 1);
    assert_eq!(w.abilities[0].cooldown_ticks, 30);
    assert!(w.grid.get(TilePos { x: 5, y: 5 }).unwrap().has_ability);
    assert!(!w.grid.get(TilePos { x: 6, y: 6 }).unwrap().has_ability);
}

fn world_with_a_nuke() -> GameWorld {
    let mut w = new_game(&GameBuildSettings { map_size: 30, enemy_count: 1 });
    w.players[1].points.ability_points = 50;
    w.actions[1].try_place_ability = true;
    w.actions[1].ability_tile_pos = Some(TilePos { x: 5, y: 5 });
    assert!(w.place_ability(None)[0].is_ok());
    w
}

#[test]
fn a_nuke_acts_every_thirty_ticks_and_runs_out_after_its_second_blast() {
    let mut w = world_with_a_nuke();
    for _ in 0..29 {
        w.ability_step();
    }
    assert_eq!(w.abilities.len(), 1);
    assert_eq!(w.abilities[0].cooldown_ticks, 1);
    assert_eq!(w.abilities[0].spawn.timer_ticks, 2);
    w.ability_step();
    assert_eq!(w.abilities.len(), 1);
    assert_eq!(w.abilities[0].spawn.timer_ticks, 1);
    assert_eq!(w.abilities[0].cooldown_ticks, 30);
    assert!(!w.abilities[0].active);
    assert!(!w.abilities[0].destroy);
    for _ in 0..29 {
        w.ability_step();
    }
    assert_eq!(w.abilities.len(), 1);
    assert!(w.grid.get(TilePos { x: 5, y: 5 }).unwrap().has_ability);
    w.ability_step();
    assert!(w.abilities.is_empty());
    assert!(w.ability_caches.is_empty());
    assert!(!w.grid.get(TilePos { x: 5, y: 5 }).unwrap().has_ability);
}

#[test]
fn ability_steps_leave_players_and_buildings_alone() {
    let mut w = world_with_a_nuke();
    let players_before = w.players.clone();
    let buildings_before = w.buildings.clone();
    for _ in 0..70 {
        w.ability_step();
    }
    assert_eq!(w.players, players_before);
    assert_eq!(w.buildings.len(), buildings_before.len());
    for (a, b) in w.buildings.iter().zip(buildings_before.iter()) {
        assert_eq!((a.id, a.player, a.position, a.kind), (b.id, b.player, b.position, b.kind));
    }
}

#[test]
fn spent_abilities_are_removed_and_their_tiles_cleared() {
    let mut w = world_with_a_nuke();
    w.abilities[0].destroy = true;
    w.remove_spent_abilities();
    assert!(w.abilities.is_empty());
    assert!(!w.grid.get(TilePos { x: 5, y: 5 }).unwrap().has_ability);
}

#[test]
fn building_requests_follow_the_cursor_and_named_tiles() {
    let mut w = new_game(&GameBuildSettings { map_size: 30, enemy_count: 1 });
    w.actions[0].try_place_building = true;
    w.actions[0].target_world_pos = true;
    w.actions[0].selected_building = BuildingTypes::Line;
    w.actions[3].try_place_building = true;
    w.actions[3].building_tile_pos = Some(TilePos { x: 9, y: 9 });
    let cursor = Some(TilePos { x: 3, y: 4 });
    assert_eq!(
        w.place_building(cursor),
        vec![(0, BuildingTypes::Line, TilePos { x: 3, y: 4 }), (3, BuildingTypes::Pulser, TilePos { x: 9, y: 9 })]
    );
    assert_eq!(w.place_building(None), vec![(3, BuildingTypes::Pulser, TilePos { x: 9, y: 9 })]);
}

#[test]
fn each_building_pass_only_moves_its_own_kind() {
    let mut w = new_game(&GameBuildSettings { map_size: 30, enemy_count: 1 });
    w.update_building_timers();
    assert!(w.buildings[0].active);
    let mut events = Vec::new();
    w.simulate_lines_from_cache(&mut events);
    w.simulate_scatter_from_cache(&mut events);
    assert!(events.is_empty());
    assert!(w.buildings[0].active);
    w.simulate_pulsers_from_cache(&mut events);
    assert!(!events.is_empty());
    assert!(w.buildings.iter().all(|b| !b.active));
    assert!(events.iter().all(|e| w.grid.get(e.tile_pos).is_some()));
}

#[test]
fn each_ability_pass_only_moves_its_own_kind() {
    let mut w = world_with_a_nuke();
    w.abilities[0].active = true;
    let mut events = Vec::new();
    w.simulate_expand_from_cache(&mut events);
    w.simulate_fortifies(&mut events);
    assert!(events.is_empty());
    assert!(w.abilities[0].active);
    w.simulate_nuke_from_cache(&mut events);
    assert!(!w.abilities[0].active);
    assert!(!w.abilities[0].destroy);
    assert!(events.iter().all(|e| w.grid.get(e.tile_pos).is_some()));
}

#[test]
fn a_paid_ability_without_room_on_its_tile_is_refused_as_full() {
    let mut w = new_game(&GameBuildSettings { map_size: 30, enemy_count: 1 });
    w.players[1].points.ability_points = 50;
    w.players[2].points.ability_points = 60;
    w.actions[1].try_place_ability = true;
    w.actions[1].ability_tile_pos = Some(TilePos { x: 5, y: 5 });
    w.actions[2].try_place_ability = true;
    w.actions[2].ability_tile_pos = Some(TilePos { x: 5, y: 5 });
    let results = w.place_ability(None);
    assert_eq!(results.len(), 2);
    assert!(results[0].is_ok());
    assert_eq!(results[1], Err(SpawnAbilityError::TileFull));
    assert_eq!(w.players[2].points.ability_points, 10);
    assert_eq!(w.abilities.len(), 1);
    assert_eq!(w.abilities[0].spawn.player, 1);
    let outside = {
        let mut v = new_game(&GameBuildSettings { map_size: 30, enemy_count: 1 });
        v.players[1].points.ability_points = 50;
        v.actions[1].try_place_ability = true;
        v.actions[1].ability_tile_pos = Some(TilePos { x: 40, y: 5 });
        v.place_ability(None)
    };
    assert_eq!(outside, vec![Err(SpawnAbilityError::TileFull)]);
}

#[test]
fn a_step_leaves_the_human_requests_alone() {
    let mut w = new_game(&GameBuildSettings { map_size: 30, enemy_count: 1 });
    w.actions[0].try_place_building = true;
    w.actions[0].building_tile_pos = Some(TilePos { x: 3, y: 3 });
    let before = w.actions[0];
    w.step();
    assert_eq!(w.actions[0], before);
    assert!(w.buildings.iter().all(|b| {
        let t = w.grid.get(b.position).unwrap();
        t.claim.map(|c| c.player == b.player).unwrap_or(true)
    }));
}
