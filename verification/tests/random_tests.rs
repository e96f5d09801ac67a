use clrs::ai::pick_ai_building;
use clrs::buildings::{simulate_scatter, BuildingTypes, Scatter};
use clrs::grid::{TileGrid, TilePos, TileType, TilemapSize};
use clrs::objects::ObjectId;
use clrs::points::{increase_building_points, PlayerPoints};
use std::collections::HashSet;

#[test]
fn awards_from_fifty_points_are_sometimes_held_back() {
    let mut grew = 0;
    let mut held = 0;
    for _ in 0..400 {
        let mut p = PlayerPoints { building_points: 100, ability_points: 0 };
        increase_building_points(&mut p);
        if p.building_points == 101 {
            grew += 1;
        } else {
            assert_eq!(p.building_points, 100);
            held += 1;
        }
    }
    assert!(grew > 0 && held > 0);
}

#[test]
fn scatter_spreads_its_picks_over_the_cache() {
    let g = TileGrid::new_filled(TilemapSize { x: 5, y: 1 }, TileType::Colorable);
    let cache: Vec<TilePos> = (0..5).map(|x| TilePos { x, y: 0 }).collect();
    let mut seen = HashSet::new();
    for _ in 0..40 {
        let mut events = vec![];
        simulate_scatter(&g, ObjectId { id: 1 }, 0, &Scatter { scatter_range: 4, scatter_amount: 0 }, &cache, &mut events);
        assert_eq!(events.len(), 1);
        seen.insert(events[0].tile_pos);
    }
    assert!(seen.len() > 1);
}

#[test]
fn contested_tiles_get_every_kind_of_building() {
    let mut seen = HashSet::new();
    for _ in 0..300 {
        seen.insert(pick_ai_building(1));
    }
    assert!(seen.contains(&BuildingTypes::Scatter));
    assert!(seen.contains(&BuildingTypes::Line));
    assert!(seen.contains(&BuildingTypes::Pulser));
}
