use clrs::abilities::{Ability, Expand, Nuke};
use clrs::buildings::{Building, PathfindStrengthExt, Pulser, Scatter};

#[test]
fn a_building_reaches_as_far_as_its_kind() {
    let pulser = Building { building_type: Pulser { strength: 7, max_pulse_tiles: 3 } };
    assert_eq!(pulser.pathfinding_strength(), 7);
    let scatter = Building { building_type: Scatter { scatter_range: 4, scatter_amount: 9 } };
    assert_eq!(scatter.pathfinding_strength(), 4);
}

#[test]
fn an_ability_reaches_as_far_as_its_kind() {
    let nuke = Ability { ability_type: Nuke { strength: 5, min_tile_damage: 2, max_tile_damage: 4 } };
    assert_eq!(nuke.pathfinding_strength(), 5);
    let expand = Ability { ability_type: Expand { strength: 2, min_tile_strengthen: 1, max_tile_strengthen: 2 } };
    assert_eq!(expand.pathfinding_strength(), 2);
}
