use clrs::color::{TileColor, TileColorStrength};
use clrs::end_game::{update_game_end_state, GameEndConditions, GameEnded};
use clrs::grid::{TileClaim, TileGrid, TilePos, TileState, TileType, TilemapSize};

fn owned(player: usize) -> Option<TileState> {
    Some(TileState {
        tile_type: TileType::Colorable,
        claim: Some(TileClaim { player, color: TileColor { tile_color_strength: TileColorStrength::One } }),
        has_building: false,
        has_ability: false,
    })
}

fn grid(owners: &[Option<usize>]) -> TileGrid {
    let mut g = TileGrid::new_filled(TilemapSize { x: owners.len() as u32, y: 1 }, TileType::Colorable);
    for (x, o) in owners.iter().enumerate() {
        if let Some(p) = o {
            g.set_tile(TilePos { x: x as u32, y: 0 }, owned(*p));
        }
    }
    g
}

#[test]
fn game_goes_on_while_several_players_hold_tiles() {
    let g = grid(&[Some(0), Some(1), None, None]);
    assert_eq!(update_game_end_state(&g, GameEndConditions::Domination, 2), None);
}

#[test]
fn player_wins_by_domination() {
    let g = grid(&[Some(0), None, Some(0), None]);
    assert_eq!(update_game_end_state(&g, GameEndConditions::Domination, 2), Some(GameEnded { player_won: true, winning_id: 0 }));
}

#[test]
fn player_loses_without_tiles_to_the_biggest_holder() {
    let g = grid(&[Some(2), Some(1), Some(1), None]);
    assert_eq!(update_game_end_state(&g, GameEndConditions::Domination, 2), Some(GameEnded { player_won: false, winning_id: 1 }));
}

#[test]
fn percentage_win_at_the_target() {
    let g = grid(&[Some(1), Some(1), Some(0), None]);
    let cond = GameEndConditions::Percentage { target_percentage: 50 };
    assert_eq!(update_game_end_state(&g, cond, 2), Some(GameEnded { player_won: false, winning_id: 1 }));
    let cond = GameEndConditions::Percentage { target_percentage: 75 };
    assert_eq!(update_game_end_state(&g, cond, 2), None);
}
