use clrs::color::{TileColor, TileColorStrength};
use clrs::grid::{TileClaim, TileGrid, TilePos, TileState, TileType, TilemapSize};
use clrs::points::{
    apply_building_point_roll, count_full_tiles, increase_ability_points, increase_building_points,
    update_player_points, PlayerPoints, PlayerRecord,
};

fn full(player: usize) -> Option<TileState> {
    Some(TileState {
        tile_type: TileType::Colorable,
        claim: Some(TileClaim { player, color: TileColor { tile_color_strength: TileColorStrength::Five } }),
        has_building: false,
        has_ability: false,
    })
}

#[test]
fn points_below_fifty_always_grow() {
    let mut p = PlayerPoints { building_points: 10, ability_points: 49 };
    increase_building_points(&mut p);
    increase_ability_points(&mut p);
    assert_eq!(p, PlayerPoints { building_points: 11, ability_points: 50 });
}

#[test]
fn points_stop_at_their_caps() {
    let mut p = PlayerPoints { building_points: 200, ability_points: 150 };
    for _ in 0..10 {
        increase_building_points(&mut p);
        increase_ability_points(&mut p);
    }
    assert_eq!(p, PlayerPoints { building_points: 200, ability_points: 150 });
}

#[test]
fn points_from_fifty_grow_by_at_most_one() {
    let mut p = PlayerPoints { building_points: 120, ability_points: 0 };
    increase_building_points(&mut p);
    assert!(p.building_points == 120 || p.building_points == 121);
}

#[test]
fn a_roll_held_back_keeps_the_points() {
    let mut p = PlayerPoints { building_points: 60, ability_points: 3 };
    apply_building_point_roll(&mut p, true);
    assert_eq!(p.building_points, 60);
    apply_building_point_roll(&mut p, false);
    assert_eq!(p.building_points, 61);
    assert_eq!(p.ability_points, 3);
}

#[test]
fn payout_gives_one_award_per_sixteen_full_tiles() {
    let mut g = TileGrid::new_filled(TilemapSize { x: 8, y: 5 }, TileType::Colorable);
    for i in 0..33u32 {
        g.set_tile(TilePos { x: i % 8, y: i / 8 }, full(1));
    }
    g.set_tile(TilePos { x: 7, y: 4 }, full(2));
    assert_eq!(count_full_tiles(&g, 1), 33);
    assert_eq!(count_full_tiles(&g, 2), 1);
    let mut players = vec![
        PlayerRecord { id: 1, points: PlayerPoints { building_points: 10, ability_points: 7 } },
        PlayerRecord { id: 2, points: PlayerPoints { building_points: 10, ability_points: 7 } },
    ];
    update_player_points(&g, &mut players);
    assert_eq!(players[0].points, PlayerPoints { building_points: 12, ability_points: 7 });
    assert_eq!(players[1].points, PlayerPoints { building_points: 10, ability_points: 7 });
}
