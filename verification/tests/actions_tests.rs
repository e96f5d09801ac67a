use clrs::abilities::Abilities;
use clrs::actions::{ability_placement, building_placement, handle_pause, update_actions, ActionInput, Actions};
use clrs::buildings::BuildingTypes;
use clrs::grid::TilePos;

fn no_input() -> ActionInput {
    ActionInput {
        left_click: false,
        right_click: false,
        ability_up: false,
        ability_down: false,
        building_left: false,
        building_right: false,
    }
}

#[test]
fn clicks_ask_to_place_at_the_cursor() {
    let mut a = Actions::default();
    update_actions(0, &ActionInput { left_click: true, ..no_input() }, &mut a);
    assert!(a.try_place_building && a.target_world_pos && !a.try_place_ability);
    update_actions(0, &ActionInput { right_click: true, ..no_input() }, &mut a);
    assert!(!a.try_place_building && a.target_world_pos && a.try_place_ability);
    update_actions(0, &no_input(), &mut a);
    assert!(!a.try_place_building && !a.target_world_pos && !a.try_place_ability);
}

#[test]
fn selections_move_and_stop_at_the_ends() {
    let mut a = Actions::default();
    let up = ActionInput { ability_up: true, ..no_input() };
    let right = ActionInput { building_right: true, ..no_input() };
    update_actions(0, &up, &mut a);
    assert_eq!(a.selected_ability, Abilities::Fortify);
    update_actions(0, &up, &mut a);
    update_actions(0, &up, &mut a);
    assert_eq!(a.selected_ability, Abilities::Expand);
    update_actions(0, &ActionInput { ability_down: true, ..no_input() }, &mut a);
    assert_eq!(a.selected_ability, Abilities::Fortify);
    update_actions(0, &right, &mut a);
    update_actions(0, &right, &mut a);
    update_actions(0, &right, &mut a);
    assert_eq!(a.selected_building, BuildingTypes::Line);
    update_actions(0, &ActionInput { building_left: true, building_right: true, ..no_input() }, &mut a);
    assert_eq!(a.selected_building, BuildingTypes::Line);
}

#[test]
fn other_players_only_have_their_requests_cleared() {
    let mut a = Actions::default();
    a.try_place_building = true;
    a.building_tile_pos = Some(TilePos { x: 1, y: 1 });
    a.ability_tile_pos = Some(TilePos { x: 2, y: 2 });
    update_actions(2, &ActionInput { left_click: true, ability_up: true, ..no_input() }, &mut a);
    assert!(!a.try_place_building);
    assert_eq!(a.building_tile_pos, None);
    assert_eq!(a.ability_tile_pos, Some(TilePos { x: 2, y: 2 }));
    assert_eq!(a.selected_ability, Abilities::Nuke);
}

#[test]
fn placement_uses_the_cursor_or_the_named_tile() {
    let named = Some(TilePos { x: 3, y: 4 });
    let cursor = Some(TilePos { x: 1, y: 2 });
    let mut a = Actions::default();
    a.building_tile_pos = named;
    a.ability_tile_pos = named;
    assert_eq!(building_placement(&a, cursor), None);
    a.try_place_building = true;
    assert_eq!(building_placement(&a, cursor), named);
    a.target_world_pos = true;
    assert_eq!(building_placement(&a, cursor), cursor);
    assert_eq!(building_placement(&a, None), None);
    a.try_place_ability = true;
    assert_eq!(ability_placement(&a, cursor), cursor);
}

#[test]
fn pause_requests_toggle_the_pause() {
    let s = handle_pause(false, true, false);
    assert!(s.paused && s.pause_consumed && !s.unpause_consumed);
    let s = handle_pause(true, true, false);
    assert!(s.paused && !s.pause_consumed);
    let s = handle_pause(true, false, true);
    assert!(!s.paused && s.unpause_consumed);
    let s = handle_pause(false, false, true);
    assert!(!s.paused && !s.unpause_consumed);
}
