use clrs::buildings::Pulser;
use clrs::grid::{TileGrid, TilePos, TileState, TileType, TilemapSize};
use clrs::pathfinding::{line_reach, simple_reach, SimplePathfinder};

fn pos(x: u32, y: u32) -> TilePos {
    TilePos { x, y }
}

fn wall() -> Option<TileState> {
    Some(TileState { tile_type: TileType::NonColorable, claim: None, has_building: false, has_ability: false })
}

#[test]
fn simple_reach_lists_the_start_then_the_ring() {
    let g = TileGrid::new_filled(TilemapSize { x: 3, y: 3 }, TileType::Colorable);
    let out = simple_reach(&g, pos(1, 1), 1);
    assert_eq!(out.len(), 5);
    assert_eq!(out[0], (pos(1, 1), 0));
    for (p, d) in out.iter().skip(1) {
        assert_eq!(*d, 1);
        let dx = (p.x as i32 - 1).abs();
        let dy = (p.y as i32 - 1).abs();
        assert_eq!(dx + dy, 1);
    }
}

#[test]
fn simple_reach_with_strength_zero_is_the_start() {
    let g = TileGrid::new_filled(TilemapSize { x: 3, y: 3 }, TileType::Colorable);
    assert_eq!(simple_reach(&g, pos(0, 0), 0), vec![(pos(0, 0), 0)]);
}

#[test]
fn simple_reach_goes_around_walls() {
    let mut g = TileGrid::new_filled(TilemapSize { x: 3, y: 1 }, TileType::Colorable);
    g.set_tile(pos(1, 0), wall());
    let out = simple_reach(&g, pos(0, 0), 5);
    assert_eq!(out, vec![(pos(0, 0), 0)]);
}

#[test]
fn simple_reach_counts_steps_along_a_corridor() {
    let g = TileGrid::new_filled(TilemapSize { x: 5, y: 1 }, TileType::Colorable);
    let out = simple_reach(&g, pos(0, 0), 3);
    assert_eq!(out, vec![(pos(0, 0), 0), (pos(1, 0), 1), (pos(2, 0), 2), (pos(3, 0), 3)]);
}

#[test]
fn simple_pathfinder_finds_the_simple_reach() {
    let g = TileGrid::new_filled(TilemapSize { x: 4, y: 4 }, TileType::Colorable);
    let finder: SimplePathfinder<Pulser> = SimplePathfinder::new();
    assert_eq!(finder.pathfind(&g, pos(2, 1), 2), simple_reach(&g, pos(2, 1), 2));
}

#[test]
fn line_reach_follows_four_straight_arms() {
    let g = TileGrid::new_filled(TilemapSize { x: 5, y: 5 }, TileType::Colorable);
    let out = line_reach(&g, pos(2, 2), 2);
    assert_eq!(
        out,
        vec![
            (pos(2, 2), 0),
            (pos(2, 3), 1),
            (pos(3, 2), 1),
            (pos(2, 1), 1),
            (pos(1, 2), 1),
            (pos(2, 4), 2),
            (pos(4, 2), 2),
            (pos(2, 0), 2),
            (pos(0, 2), 2),
        ]
    );
}

#[test]
fn line_reach_stops_at_a_wall() {
    let mut g = TileGrid::new_filled(TilemapSize { x: 5, y: 1 }, TileType::Colorable);
    g.set_tile(pos(3, 0), wall());
    let out = line_reach(&g, pos(2, 0), 2);
    let tiles: Vec<TilePos> = out.iter().map(|e| e.0).collect();
    assert!(tiles.contains(&pos(1, 0)));
    assert!(tiles.contains(&pos(0, 0)));
    assert!(!tiles.contains(&pos(3, 0)));
    assert!(!tiles.contains(&pos(4, 0)));
}
