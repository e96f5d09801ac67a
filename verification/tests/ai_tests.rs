use clrs::actions::Actions;
use clrs::ai::{
    ai_ability_turn, ai_building_turn, building_draws,
    ai_building_for, ai_building_target, check_if_neighbor_not_same, check_in_bounds, conflict_target,
    count_distinct_objects, emergency_target, pick_ai_building, run_ai, run_ai_ability, run_ai_ability_for, run_ai_building,
    run_ai_building_for,
};
use clrs::buildings::BuildingTypes;
use clrs::color::{TileColor, TileColorStrength};
use clrs::conflicts::ColorConflicts;
use clrs::grid::{TileClaim, TileGrid, TilePos, TileState, TileType, TilemapSize};
use clrs::points::{PlayerPoints, PlayerRecord};

fn pos(x: u32, y: u32) -> TilePos {
    TilePos { x, y }
}

fn owned(player: usize) -> Option<TileState> {
    Some(TileState {
        tile_type: TileType::Colorable,
        claim: Some(TileClaim { player, color: TileColor { tile_color_strength: TileColorStrength::One } }),
        has_building: false,
        has_ability: false,
    })
}

#[test]
fn distinct_objects_are_counted_once() {
    assert_eq!(count_distinct_objects(&vec![(1, 5), (2, 5), (1, 6), (1, 5)]), 2);
    assert_eq!(count_distinct_objects(&vec![]), 0);
}

#[test]
fn conflict_target_takes_the_fewest_contested_first() {
    let mut g = TileGrid::new_filled(TilemapSize { x: 4, y: 1 }, TileType::Colorable);
    for x in 0..4 {
        g.set_tile(pos(x, 0), owned(1));
    }
    let mut c = ColorConflicts::new();
    c.register_conflict(pos(0, 0), 2, 10);
    c.register_conflict(pos(0, 0), 2, 11);
    c.register_conflict(pos(1, 0), 2, 12);
    c.register_conflict(pos(2, 0), 2, 13);
    c.register_conflict(pos(3, 0), 3, 14);
    assert_eq!(conflict_target(&g, &c, 1, false), Some((pos(1, 0), 1)));
    assert_eq!(conflict_target(&g, &c, 2, false), None);
}

#[test]
fn neighbor_checks_look_for_something_to_take() {
    let mut g = TileGrid::new_filled(TilemapSize { x: 2, y: 2 }, TileType::Colorable);
    for x in 0..2 {
        for y in 0..2 {
            g.set_tile(pos(x, y), owned(1));
        }
    }
    assert!(!check_if_neighbor_not_same(pos(0, 0), 1, &g));
    g.set_tile(pos(1, 1), owned(2));
    assert!(check_if_neighbor_not_same(pos(0, 1), 1, &g));
    assert!(!check_if_neighbor_not_same(pos(0, 0), 1, &g));
    assert!(check_in_bounds(pos(1, 1), &TilemapSize { x: 2, y: 2 }));
    assert!(!check_in_bounds(pos(2, 1), &TilemapSize { x: 2, y: 2 }));
}

#[test]
fn emergency_target_is_the_first_border_tile() {
    let mut g = TileGrid::new_filled(TilemapSize { x: 3, y: 1 }, TileType::Colorable);
    g.set_tile(pos(0, 0), owned(1));
    g.set_tile(pos(1, 0), owned(1));
    assert_eq!(emergency_target(&g, 1), Some((pos(1, 0), 0)));
    let c = ColorConflicts::new();
    assert_eq!(ai_building_target(&g, &c, 1), Some((pos(1, 0), 0)));
    assert_eq!(emergency_target(&g, 2), None);
}

#[test]
fn building_choice_follows_the_contest() {
    assert_eq!(ai_building_for(0, true, 0), BuildingTypes::Line);
    assert_eq!(ai_building_for(0, false, 0), BuildingTypes::Pulser);
    assert_eq!(ai_building_for(1, false, 0), BuildingTypes::Scatter);
    assert_eq!(ai_building_for(1, false, 1), BuildingTypes::Line);
    assert_eq!(ai_building_for(1, false, 2), BuildingTypes::Pulser);
    assert_eq!(ai_building_for(4, true, 0), BuildingTypes::Scatter);
    assert_eq!(ai_building_for(4, false, 0), BuildingTypes::Pulser);
    for _ in 0..20 {
        let b = pick_ai_building(3);
        assert!(b == BuildingTypes::Scatter || b == BuildingTypes::Pulser);
        let b = pick_ai_building(0);
        assert!(b == BuildingTypes::Line || b == BuildingTypes::Pulser);
    }
}

#[test]
fn human_player_is_left_alone() {
    let g = TileGrid::new_filled(TilemapSize { x: 2, y: 2 }, TileType::Colorable);
    let c = ColorConflicts::new();
    let human = PlayerRecord { id: 0, points: PlayerPoints { building_points: 100, ability_points: 100 } };
    let mut a = Actions::default();
    a.try_place_building = true;
    run_ai_building_for(&g, &c, &human, &mut a);
    run_ai_ability_for(&g, &c, &human, &mut a);
    assert!(a.try_place_building);
}

#[test]
fn poor_computer_player_only_clears_its_requests() {
    let mut g = TileGrid::new_filled(TilemapSize { x: 2, y: 1 }, TileType::Colorable);
    g.set_tile(pos(0, 0), owned(1));
    let c = ColorConflicts::new();
    let ai = PlayerRecord { id: 1, points: PlayerPoints { building_points: 10, ability_points: 10 } };
    let mut a = Actions::default();
    a.try_place_building = true;
    a.ability_tile_pos = Some(pos(1, 0));
    a.selected_building = BuildingTypes::Line;
    run_ai_building_for(&g, &c, &ai, &mut a);
    assert!(!a.try_place_building);
    assert_eq!(a.ability_tile_pos, None);
    assert_eq!(a.selected_building, BuildingTypes::Line);
    run_ai_ability_for(&g, &c, &ai, &mut a);
    assert!(!a.try_place_ability);
}

#[test]
fn rich_computer_player_places_on_its_border_when_it_acts() {
    let mut g = TileGrid::new_filled(TilemapSize { x: 2, y: 1 }, TileType::Colorable);
    g.set_tile(pos(0, 0), owned(1));
    let c = ColorConflicts::new();
    let ai = PlayerRecord { id: 1, points: PlayerPoints { building_points: 100, ability_points: 0 } };
    let mut placed = 0;
    for _ in 0..50 {
        let mut a = Actions::default();
        run_ai_building_for(&g, &c, &ai, &mut a);
        if a.try_place_building {
            placed += 1;
            assert_eq!(a.building_tile_pos, Some(pos(0, 0)));
            assert!(a.selected_building == BuildingTypes::Line || a.selected_building == BuildingTypes::Pulser);
        } else {
            assert_eq!(a.building_tile_pos, None);
        }
    }
    assert!(placed > 0);
}

#[test]
fn every_computer_player_takes_its_turns_and_the_human_is_left_alone() {
    let mut g = TileGrid::new_filled(TilemapSize { x: 2, y: 1 }, TileType::Colorable);
    g.set_tile(pos(0, 0), owned(1));
    let c = ColorConflicts::new();
    let players = vec![
        PlayerRecord { id: 0, points: PlayerPoints { building_points: 100, ability_points: 100 } },
        PlayerRecord { id: 1, points: PlayerPoints { building_points: 10, ability_points: 10 } },
    ];
    let mut human = Actions::default();
    human.try_place_building = true;
    human.building_tile_pos = Some(pos(1, 0));
    let mut poor = Actions::default();
    poor.try_place_building = true;
    poor.try_place_ability = true;
    let mut actions = vec![human, poor];
    run_ai_building(&g, &c, &players, &mut actions);
    assert_eq!(actions[0], human);
    assert!(!actions[1].try_place_building);
    assert!(!actions[1].try_place_ability);
    run_ai_ability(&g, &c, &players, &mut actions);
    assert_eq!(actions[0], human);
    assert!(!actions[1].try_place_ability);
    let mut again = vec![human, poor];
    run_ai(&g, &c, &players, &mut again);
    assert_eq!(again, actions);
}

#[test]
fn a_building_turn_follows_its_draws() {
    let rich = PlayerPoints { building_points: 60, ability_points: 0 };
    let poor = PlayerPoints { building_points: 49, ability_points: 0 };
    let mut a = Actions::default();
    a.try_place_ability = true;
    let placed = ai_building_turn(a, rich, Some((pos(3, 4), 1)), true, false, 1);
    assert!(placed.try_place_building);
    assert_eq!(placed.building_tile_pos, Some(pos(3, 4)));
    assert_eq!(placed.selected_building, BuildingTypes::Line);
    assert!(!placed.try_place_ability);
    let idle = ai_building_turn(a, rich, Some((pos(3, 4), 1)), false, false, 1);
    assert!(!idle.try_place_building && !idle.try_place_ability);
    let broke = ai_building_turn(a, poor, Some((pos(3, 4), 0)), true, true, 0);
    assert!(!broke.try_place_building);
    let busy = ai_building_turn(a, rich, Some((pos(0, 0), 5)), true, true, 0);
    assert_eq!(busy.selected_building, BuildingTypes::Scatter);
}

#[test]
fn an_ability_turn_follows_its_draws() {
    let rich = PlayerPoints { building_points: 0, ability_points: 50 };
    let a = Actions::default();
    let fortify = ai_ability_turn(a, rich, Some((pos(1, 1), 2)), Some(pos(2, 2)), Some(pos(3, 3)), false, 0);
    assert_eq!(fortify.selected_ability, clrs::abilities::Abilities::Fortify);
    assert_eq!(fortify.ability_tile_pos, Some(pos(1, 1)));
    let expand = ai_ability_turn(a, rich, None, Some(pos(2, 2)), Some(pos(3, 3)), false, 1);
    assert_eq!(expand.selected_ability, clrs::abilities::Abilities::Expand);
    assert_eq!(expand.ability_tile_pos, Some(pos(2, 2)));
    let nuke = ai_ability_turn(a, rich, None, None, Some(pos(3, 3)), false, 2);
    assert_eq!(nuke.selected_ability, clrs::abilities::Abilities::Nuke);
    assert!(nuke.try_place_ability);
    assert_eq!(ai_ability_turn(a, rich, None, None, Some(pos(3, 3)), true, 2), a);
    assert_eq!(ai_ability_turn(a, rich, None, Some(pos(2, 2)), None, false, 0), a);
    let poor = PlayerPoints { building_points: 0, ability_points: 49 };
    assert_eq!(ai_ability_turn(a, poor, None, None, Some(pos(3, 3)), false, 2), a);
}

#[test]
fn building_draws_stay_in_range() {
    for count in 0..4usize {
        for _ in 0..20 {
            let (coin, die) = building_draws(count);
            assert!(die <= 2);
            if count != 1 {
                assert_eq!(die, 0);
            } else {
                assert!(!coin);
            }
        }
    }
}
