//! What each player asks for in a step: the building and ability it has
//! selected, and where it wants to place one. The human player's requests
//! come from the keyboard and mouse.

use vstd::prelude::*;
use crate::abilities::Abilities;
use crate::buildings::BuildingTypes;
use crate::grid::TilePos;

verus! {

/// A player's requests for the current step.
#[derive(Clone, Copy, PartialEq, Eq, Structural, Debug, Hash)]
pub struct Actions {
    pub try_place_building: bool,
    pub try_place_ability: bool,
    pub placed_building: bool,
    pub placed_ability: bool,
    pub selected_building: BuildingTypes,
    pub selected_ability: Abilities,
    pub target_world_pos: bool,
    pub building_tile_pos: Option<TilePos>,
    pub ability_tile_pos: Option<TilePos>,
}

/// A player's requests when nothing is requested yet: no placement, no
/// target, a pulser and a nuke selected.
pub open spec fn no_requests() -> Actions {
    Actions {
        try_place_building: false,
        try_place_ability: false,
        placed_building: false,
        placed_ability: false,
        selected_building: BuildingTypes::Pulser,
        selected_ability: Abilities::Nuke,
        target_world_pos: false,
        building_tile_pos: None,
        ability_tile_pos: None,
    }
}

impl Default for Actions {
    /// Nothing requested, a pulser and a nuke selected.
    fn default() -> (a: Self)
        ensures
            a == no_requests(),
            !a.try_place_building && !a.try_place_ability,
            !a.placed_building && !a.placed_ability,
            a.selected_building == BuildingTypes::Pulser,
            a.selected_ability == Abilities::Nuke,
            !a.target_world_pos,
            a.building_tile_pos is None,
            a.ability_tile_pos is None,
    {
        Actions {
            try_place_building: false,
            try_place_ability: false,
            placed_building: false,
            placed_ability: false,
            selected_building: BuildingTypes::Pulser,
            selected_ability: Abilities::Nuke,
            target_world_pos: false,
            building_tile_pos: None,
            ability_tile_pos: None,
        }
    }
}

/// The place of an ability in the selection list, from the bottom: nuke,
/// fortify, expand.
pub open spec fn ability_rank(a: Abilities) -> int {
    match a {
        Abilities::Nuke => 0,
        Abilities::Fortify => 1,
        Abilities::Expand => 2,
    }
}

/// The ability at a place of the selection list, places past either end
/// giving the end.
pub open spec fn ability_at(rank: int) -> Abilities {
    if rank <= 0 {
        Abilities::Nuke
    } else if rank == 1 {
        Abilities::Fortify
    } else {
        Abilities::Expand
    }
}

/// The place of a building in the selection list, from the left: pulser,
/// scatter, line.
pub open spec fn building_rank(b: BuildingTypes) -> int {
    match b {
        BuildingTypes::Pulser => 0,
        BuildingTypes::Scatter => 1,
        BuildingTypes::Line => 2,
    }
}

/// The building at a place of the selection list, places past either end
/// giving the end.
pub open spec fn building_at(rank: int) -> BuildingTypes {
    if rank <= 0 {
        BuildingTypes::Pulser
    } else if rank == 1 {
        BuildingTypes::Scatter
    } else {
        BuildingTypes::Line
    }
}

/// The human player's input in one frame: the mouse buttons just pressed,
/// and the selection keys (W or Up, S or Down, A or Left, D or Right).
#[derive(Clone, Copy, PartialEq, Eq, Structural, Debug, Hash)]
pub struct ActionInput {
    pub left_click: bool,
    pub right_click: bool,
    pub ability_up: bool,
    pub ability_down: bool,
    pub building_left: bool,
    pub building_right: bool,
}

/// The requests of a player after a frame of `input`. Every player's
/// requests of the last frame are cleared, except where it wanted to place
/// an ability; the human player, player 0, then asks to place a building on a
/// left click and an ability on a right click, both at the cursor, and moves
/// its selections: up and then down through the abilities, left and then
/// right through the buildings, stopping at the ends of each list.
pub open spec fn actions_after_input(a: Actions, player_id: usize, input: ActionInput) -> Actions {
    let cleared = Actions {
        building_tile_pos: None,
        target_world_pos: false,
        try_place_ability: false,
        try_place_building: false,
        placed_building: false,
        placed_ability: false,
        ..a
    };
    if player_id != 0 {
        cleared
    } else {
        let up = if input.ability_up { ability_at(ability_rank(a.selected_ability) + 1) } else { a.selected_ability };
        let down = if input.ability_down { ability_at(ability_rank(up) - 1) } else { up };
        let left = if input.building_left { building_at(building_rank(a.selected_building) - 1) } else { a.selected_building };
        let right = if input.building_right { building_at(building_rank(left) + 1) } else { left };
        Actions {
            try_place_building: input.left_click,
            try_place_ability: input.right_click,
            target_world_pos: input.left_click || input.right_click,
            selected_ability: down,
            selected_building: right,
            ..cleared
        }
    }
}

/// Applies a frame of input to the requests of player `player_id`.
pub fn update_actions(player_id: usize, input: &ActionInput, actions: &mut Actions)
    ensures
        *final(actions) == actions_after_input(*old(actions), player_id, *input),
{
    actions.building_tile_pos = None;
    actions.target_world_pos = false;
    actions.try_place_ability = false;
    actions.try_place_building = false;
    actions.placed_building = false;
    actions.placed_ability = false;

    if player_id == 0 {
        if input.left_click {
            actions.try_place_building = true;
            actions.target_world_pos = true;
        }
        if input.right_click {
            actions.try_place_ability = true;
            actions.target_world_pos = true;
        }
        if input.ability_up {
            match actions.selected_ability {
                Abilities::Nuke => {
                    actions.selected_ability = Abilities::Fortify;
                },
                Abilities::Fortify => {
                    actions.selected_ability = Abilities::Expand;
                },
                Abilities::Expand => {},
            }
        }
        if input.ability_down {
            match actions.selected_ability {
                Abilities::Nuke => {},
                Abilities::Fortify => {
                    actions.selected_ability = Abilities::Nuke;
                },
                Abilities::Expand => {
                    actions.selected_ability = Abilities::Fortify;
                },
            }
        }
        if input.building_left {
            match actions.selected_building {
                BuildingTypes::Pulser => {},
                BuildingTypes::Scatter => {
                    actions.selected_building = BuildingTypes::Pulser;
                },
                BuildingTypes::Line => {
                    actions.selected_building = BuildingTypes::Scatter;
                },
            }
        }
        if input.building_right {
            match actions.selected_building {
                BuildingTypes::Pulser => {
                    actions.selected_building = BuildingTypes::Scatter;
                },
                BuildingTypes::Scatter => {
                    actions.selected_building = BuildingTypes::Line;
                },
                BuildingTypes::Line => {},
            }
        }
    }
}

/// Moving a selection one place and back returns to where it was unless the
/// first move was stopped at the end of its list; and no move ever leaves
/// the list.
pub proof fn lemma_selection_moves(a: Abilities, b: BuildingTypes)
    ensures
        0 <= ability_rank(ability_at(ability_rank(a) + 1)) <= 2,
        0 <= ability_rank(ability_at(ability_rank(a) - 1)) <= 2,
        a != Abilities::Expand ==> ability_at(ability_rank(ability_at(ability_rank(a) + 1)) - 1) == a,
        a != Abilities::Nuke ==> ability_at(ability_rank(ability_at(ability_rank(a) - 1)) + 1) == a,
        b != BuildingTypes::Line ==> building_at(building_rank(building_at(building_rank(b) + 1)) - 1) == b,
        b != BuildingTypes::Pulser ==> building_at(building_rank(building_at(building_rank(b) - 1)) + 1) == b,
        ability_at(ability_rank(a)) == a,
        building_at(building_rank(b)) == b,
{
}

/// Whether the game is paused after a frame, given the requests to pause and
/// to resume: a running game pauses when asked to, a paused one resumes when
/// asked to, and any other request waits.
pub open spec fn paused_after(paused: bool, pause_requested: bool, unpause_requested: bool) -> bool {
    if paused { !unpause_requested } else { pause_requested }
}

/// The outcome of a frame of pause handling.
#[derive(Clone, Copy, PartialEq, Eq, Structural, Debug, Hash)]
pub struct PauseStep {
    /// Whether the game is paused afterwards.
    pub paused: bool,
    /// Whether the request to pause was taken and is to be removed.
    pub pause_consumed: bool,
    /// Whether the request to resume was taken and is to be removed.
    pub unpause_consumed: bool,
}

/// Handles the requests to pause and resume for one frame.
pub fn handle_pause(paused: bool, pause_requested: bool, unpause_requested: bool) -> (s: PauseStep)
    ensures
        s.paused == paused_after(paused, pause_requested, unpause_requested),
        s.pause_consumed == (!paused && pause_requested),
        s.unpause_consumed == (paused && unpause_requested),
{
    if !paused {
        if pause_requested {
            return PauseStep { paused: true, pause_consumed: true, unpause_consumed: false };
        }
    } else {
        if unpause_requested {
            return PauseStep { paused: false, pause_consumed: false, unpause_consumed: true };
        }
    }
    PauseStep { paused, pause_consumed: false, unpause_consumed: false }
}

/// Where a player's building goes this step: nowhere unless it asked to
/// place one; at the tile under the cursor when it asked to place at the
/// cursor (nowhere when the cursor is off the map); else at the tile it
/// named, if any.
pub open spec fn placement(try_place: bool, target_world_pos: bool, cursor_tile: Option<TilePos>, named: Option<TilePos>) -> Option<TilePos> {
    if !try_place {
        None
    } else if target_world_pos {
        cursor_tile
    } else {
        named
    }
}

/// Where a player's building goes this step, `cursor_tile` being the tile
/// under the cursor, if the cursor is over the map.
pub fn building_placement(actions: &Actions, cursor_tile: Option<TilePos>) -> (r: Option<TilePos>)
    ensures
        r == placement(actions.try_place_building, actions.target_world_pos, cursor_tile, actions.building_tile_pos),
{
    if !actions.try_place_building {
        return None;
    }
    if actions.target_world_pos {
        cursor_tile
    } else {
        actions.building_tile_pos
    }
}

/// Where a player's ability goes this step, by the same rule as a building.
pub fn ability_placement(actions: &Actions, cursor_tile: Option<TilePos>) -> (r: Option<TilePos>)
    ensures
        r == placement(actions.try_place_ability, actions.target_world_pos, cursor_tile, actions.ability_tile_pos),
{
    if !actions.try_place_ability {
        return None;
    }
    if actions.target_world_pos {
        cursor_tile
    } else {
        actions.ability_tile_pos
    }
}

} // verus!
