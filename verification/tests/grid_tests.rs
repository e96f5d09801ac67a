use clrs::grid::{get_neighbors_tilepos, Level, TileGrid, TilePos, TileState, TileType, TilemapSize};

fn pos(x: u32, y: u32) -> TilePos {
    TilePos { x, y }
}

#[test]
fn from_i32_pair_rejects_positions_off_the_map() {
    let size = TilemapSize { x: 3, y: 4 };
    assert_eq!(TilePos::from_i32_pair(-1, 0, &size), None);
    assert_eq!(TilePos::from_i32_pair(0, -1, &size), None);
    assert_eq!(TilePos::from_i32_pair(3, 0, &size), None);
    assert_eq!(TilePos::from_i32_pair(0, 4, &size), None);
    assert_eq!(TilePos::from_i32_pair(2, 3, &size), Some(pos(2, 3)));
}

#[test]
fn neighbors_come_north_east_south_west() {
    let size = TilemapSize { x: 3, y: 3 };
    assert_eq!(get_neighbors_tilepos(pos(1, 1), &size), vec![pos(1, 2), pos(2, 1), pos(1, 0), pos(0, 1)]);
    assert_eq!(get_neighbors_tilepos(pos(0, 0), &size), vec![pos(0, 1), pos(1, 0)]);
    assert_eq!(get_neighbors_tilepos(pos(2, 2), &size), vec![pos(2, 1), pos(1, 2)]);
}

#[test]
fn filled_grid_has_fresh_tiles_inside_only() {
    let g = TileGrid::new_filled(TilemapSize { x: 2, y: 3 }, TileType::Colorable);
    assert_eq!(g.cell_count(), 6);
    let fresh = TileState { tile_type: TileType::Colorable, claim: None, has_building: false, has_ability: false };
    assert_eq!(g.get(pos(1, 2)), Some(fresh));
    assert_eq!(g.get(pos(2, 0)), None);
    assert_eq!(g.get(pos(0, 3)), None);
}

#[test]
fn level_rows_give_the_map() {
    let level = Level {
        name: String::from("test"),
        spawn_points: vec![(0, 0)],
        tiles: vec![
            vec![TileType::Colorable, TileType::NonColorable, TileType::Colorable],
            vec![TileType::NonColorable],
        ],
    };
    let g = TileGrid::from_level(&level);
    assert_eq!(g.size(), TilemapSize { x: 3, y: 2 });
    assert_eq!(g.get(pos(1, 0)).map(|t| t.tile_type), Some(TileType::NonColorable));
    assert_eq!(g.get(pos(0, 1)).map(|t| t.tile_type), Some(TileType::NonColorable));
    assert_eq!(g.get(pos(1, 1)), None);
}

#[test]
fn cell_positions_and_indices_agree() {
    let g = TileGrid::new_filled(TilemapSize { x: 4, y: 3 }, TileType::Colorable);
    for i in 0..g.cell_count() {
        let p = g.position(i);
        assert_eq!(g.index_of(p), i);
    }
    assert_eq!(g.position(5), pos(1, 1));
}

#[test]
fn set_tile_changes_one_cell() {
    let mut g = TileGrid::new_filled(TilemapSize { x: 2, y: 2 }, TileType::Colorable);
    let wall = TileState { tile_type: TileType::NonColorable, claim: None, has_building: false, has_ability: false };
    g.set_tile(pos(1, 0), Some(wall));
    assert_eq!(g.get(pos(1, 0)), Some(wall));
    assert_eq!(g.get(pos(0, 0)).map(|t| t.tile_type), Some(TileType::Colorable));
}
