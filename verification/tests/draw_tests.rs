use clrs::abilities::Abilities;
use clrs::buildings::BuildingTypes;
use clrs::color::{TileColor, TileColorStrength};
use clrs::draw::{
    enemy_bar_row, object_glyph, start_scale_tenths, territory_bar_level, tile_tween_shades, ObjectKind,
    OldObjectState, OldTileState, Palette, PlayerColors, TileShade,
};
use clrs::draw::{spawned_object_sound, GameSoundEvents};
use clrs::grid::TileType;

#[test]
fn bar_lights_one_cell_per_share_passed() {
    let cases = [(0, 0), (1, 1), (20, 1), (21, 2), (40, 2), (41, 3), (50, 3), (51, 4), (60, 4), (61, 5), (80, 5), (81, 6), (100, 6), (101, 7)];
    for (count, level) in cases.iter() {
        assert_eq!(territory_bar_level(*count, 100), *level, "count {}", count);
    }
    assert_eq!(territory_bar_level(3, 0), 7);
    assert_eq!(territory_bar_level(0, 0), 0);
}

#[test]
fn enemy_bars_have_their_rows() {
    assert_eq!(enemy_bar_row(1), 22);
    assert_eq!(enemy_bar_row(2), 24);
    assert_eq!(enemy_bar_row(3), 26);
    assert_eq!(enemy_bar_row(0), 28);
    assert_eq!(enemy_bar_row(9), 0);
}

#[test]
fn tween_fades_from_the_last_holder_to_the_new_one() {
    let old = OldTileState { tile_color: None, player_id: Some(2) };
    assert_eq!(tile_tween_shades(Some(old), TileType::Colorable, Some(1)), (TileShade::Player(2), TileShade::Player(1)));
    assert_eq!(tile_tween_shades(None, TileType::NonColorable, None), (TileShade::NonColorable, TileShade::NonColorable));
    assert_eq!(
        tile_tween_shades(Some(OldTileState::default()), TileType::Colorable, Some(0)),
        (TileShade::Colorable, TileShade::Player(0))
    );
    assert_eq!(OldObjectState::default().tile_color_strength, None);
}

#[test]
fn start_scale_comes_from_the_recorded_colour() {
    let old = OldTileState { tile_color: Some(TileColor { tile_color_strength: TileColorStrength::Two }), player_id: Some(1) };
    assert_eq!(start_scale_tenths(Some(old)), 6);
    assert_eq!(start_scale_tenths(Some(OldTileState::default())), 0);
    assert_eq!(start_scale_tenths(None), 0);
}

#[test]
fn objects_have_letters() {
    assert_eq!(object_glyph(ObjectKind::Building(BuildingTypes::Pulser)), Some('P'));
    assert_eq!(object_glyph(ObjectKind::Building(BuildingTypes::Scatter)), Some('S'));
    assert_eq!(object_glyph(ObjectKind::Building(BuildingTypes::Line)), Some('L'));
    assert_eq!(object_glyph(ObjectKind::Ability(Abilities::Nuke)), Some('N'));
    assert_eq!(object_glyph(ObjectKind::Ability(Abilities::Expand)), Some('E'));
    assert_eq!(object_glyph(ObjectKind::Ability(Abilities::Fortify)), None);
}

fn palette(tag: &str) -> Palette {
    Palette {
        player_colors: vec![format!("{}0", tag), format!("{}1", tag)],
        noncolorable_tile: format!("{}n", tag),
        colorable_tile: format!("{}c", tag),
    }
}

#[test]
fn palettes_step_within_the_list() {
    let mut c = PlayerColors::new(vec![palette("a"), palette("b"), palette("c")]);
    let b = c.palette_buttons();
    assert!(!b.decrease_enabled && b.increase_enabled);
    c.prev_palette();
    assert_eq!(c.palette_index, 0);
    c.next_palette();
    assert_eq!(c.get_color(1), "b1");
    assert_eq!(c.get_colorable(), "bc");
    c.next_palette();
    c.next_palette();
    assert_eq!(c.palette_index, 2);
    assert_eq!(c.get_noncolorable(), "cn");
    let b = c.palette_buttons();
    assert!(b.decrease_enabled && !b.increase_enabled);
    assert_eq!(c.current_palette().player_colors[0], "c0");
}

#[test]
fn objects_make_their_sounds() {
    assert_eq!(spawned_object_sound(ObjectKind::Building(BuildingTypes::Line)), GameSoundEvents::PlaceBuilding);
    assert_eq!(spawned_object_sound(ObjectKind::Ability(Abilities::Nuke)), GameSoundEvents::Nuke);
    assert_eq!(spawned_object_sound(ObjectKind::Ability(Abilities::Fortify)), GameSoundEvents::Fortify);
    assert_eq!(spawned_object_sound(ObjectKind::Ability(Abilities::Expand)), GameSoundEvents::Expand);
}
