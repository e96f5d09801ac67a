use clrs::grid::TilePos;
use clrs::settings::{player_spawn_positions, GameBuildSettings, GameDifficulty};

#[test]
fn difficulty_steps_stop_at_the_ends() {
    assert_eq!(GameDifficulty::Easy.increase_difficulty(), GameDifficulty::Medium);
    assert_eq!(GameDifficulty::Hard.increase_difficulty(), GameDifficulty::Hard);
    assert_eq!(GameDifficulty::Easy.decrease_difficulty(), GameDifficulty::Easy);
    assert_eq!(GameDifficulty::Hard.decrease_difficulty(), GameDifficulty::Medium);
}

#[test]
fn default_settings_are_smallest_map_one_enemy() {
    let s = GameBuildSettings::default();
    assert_eq!(s.map_size, 30);
    assert_eq!(s.enemy_count, 1);
}

#[test]
fn map_size_steps_and_clamps() {
    let mut s = GameBuildSettings::default();
    s.decrease_map_size(false);
    assert_eq!(s.map_size, 30);
    s.increase_map_size(true);
    assert_eq!(s.map_size, 40);
    s.increase_map_size(false);
    assert_eq!(s.map_size, 41);
    s.map_size = 95;
    s.increase_map_size(true);
    assert_eq!(s.map_size, 100);
    s.decrease_map_size(true);
    assert_eq!(s.map_size, 90);
    s.map_size = 35;
    s.decrease_map_size(true);
    assert_eq!(s.map_size, 30);
}

#[test]
fn enemy_count_stays_between_one_and_three() {
    let mut s = GameBuildSettings::default();
    s.decrease_enemy_count();
    assert_eq!(s.enemy_count, 1);
    s.increase_enemy_count();
    s.increase_enemy_count();
    s.increase_enemy_count();
    assert_eq!(s.enemy_count, 3);
    s.decrease_enemy_count();
    assert_eq!(s.enemy_count, 2);
}

#[test]
fn buttons_are_offered_while_they_act() {
    let s = GameBuildSettings::default();
    let m = s.map_size_buttons();
    assert!(!m.decrease_enabled && m.increase_enabled);
    let e = s.enemy_count_buttons();
    assert!(!e.decrease_enabled && e.increase_enabled);
    let s = GameBuildSettings { map_size: 100, enemy_count: 3 };
    let m = s.map_size_buttons();
    assert!(m.decrease_enabled && !m.increase_enabled);
    let e = s.enemy_count_buttons();
    assert!(e.decrease_enabled && !e.increase_enabled);
}

#[test]
fn players_start_in_the_inset_corners() {
    let s = GameBuildSettings { map_size: 30, enemy_count: 3 };
    assert_eq!(
        player_spawn_positions(&s),
        vec![TilePos { x: 7, y: 7 }, TilePos { x: 23, y: 23 }, TilePos { x: 23, y: 7 }, TilePos { x: 7, y: 23 }]
    );
    let s = GameBuildSettings { map_size: 40, enemy_count: 1 };
    assert_eq!(player_spawn_positions(&s), vec![TilePos { x: 10, y: 10 }, TilePos { x: 30, y: 30 }]);
}

#[test]
fn difficulty_names_and_chances() {
    assert_eq!(GameDifficulty::Medium.name(), "Medium");
    assert_eq!(GameDifficulty::Easy.ai_building_speed(), (1, 1000));
    assert_eq!(GameDifficulty::Hard.ai_action_speed(), (1, 2));
}
