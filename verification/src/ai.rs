//! The computer players: where they place buildings and abilities, and
//! which kind they pick.

use vstd::prelude::*;
use crate::abilities::Abilities;
use crate::actions::Actions;
use crate::buildings::BuildingTypes;
use crate::conflicts::ColorConflicts;
use crate::grid::{in_bounds, TileGrid, TilePos, TileState, TileType, TilemapSize};
use crate::points::{PlayerPoints, PlayerRecord};
use crate::random::{random_between, random_ratio};

verus! {

broadcast use vstd::seq_lib::group_seq_properties;

/// The number of different objects among a tile's requests `(player, object)`.
pub open spec fn distinct_objects(s: Seq<(usize, usize)>) -> nat
    decreases s.len(),
{
    if s.len() == 0 {
        0
    } else {
        let rest = distinct_objects(s.drop_last());
        if exists|i: int| 0 <= i < s.len() - 1 && #[trigger] s[i].1 == s.last().1 {
            rest
        } else {
            rest + 1
        }
    }
}

/// Counts the different objects among a tile's requests.
pub fn count_distinct_objects(requests: &Vec<(usize, usize)>) -> (n: usize)
    ensures
        n == distinct_objects(requests@),
{
    let mut objects: Vec<usize> = Vec::new();
    let mut k: usize = 0;
    while k < requests.len()
        invariant
            k <= requests@.len(),
            objects@.len() <= k,
            objects@.len() == distinct_objects(requests@.take(k as int)),
            forall|x: usize| #[trigger] objects@.contains(x) <==> exists|i: int| 0 <= i < k && #[trigger] requests@[i].1 == x,
        decreases requests@.len() - k,
    {
        let object = requests[k].1;
        let mut found = false;
        let mut j: usize = 0;
        while j < objects.len()
            invariant
                j <= objects@.len(),
                found <==> exists|m: int| 0 <= m < j && objects@[m] == object,
            decreases objects@.len() - j,
        {
            if objects[j] == object {
                found = true;
            }
            j = j + 1;
        }
        proof {
            let s = requests@.take(k + 1);
            assert(s.drop_last() =~= requests@.take(k as int));
            assert(s.last() == requests@[k as int]);
            if found {
                let m = choose|m: int| 0 <= m < objects@.len() && objects@[m] == object;
                assert(objects@.contains(object));
                let i = choose|i: int| 0 <= i < k && #[trigger] requests@[i].1 == object;
                assert(s[i].1 == s.last().1);
            } else {
                assert(!objects@.contains(object));
                assert forall|i: int| 0 <= i < s.len() - 1 implies #[trigger] s[i].1 != s.last().1 by {
                    if s[i].1 == s.last().1 {
                        assert(requests@[i].1 == object);
                    }
                }
            }
        }
        let ghost before = objects@;
        if !found {
            objects.push(object);
        }
        proof {
            assert forall|x: usize| #[trigger] objects@.contains(x) <==> exists|i: int| 0 <= i < k + 1 && #[trigger] requests@[i].1 == x by {
                if objects@.contains(x) {
                    if before.contains(x) {
                        let i = choose|i: int| 0 <= i < k && #[trigger] requests@[i].1 == x;
                    } else {
                        assert(x == object);
                        assert(requests@[k as int].1 == x);
                    }
                }
                if exists|i: int| 0 <= i < k + 1 && #[trigger] requests@[i].1 == x {
                    let i = choose|i: int| 0 <= i < k + 1 && #[trigger] requests@[i].1 == x;
                    if i < k {
                        assert(before.contains(x));
                    } else {
                        if found {
                            let m = choose|m: int| 0 <= m < before.len() && before[m] == object;
                            assert(before.contains(object));
                        } else {
                            assert(objects@[objects@.len() - 1] == x);
                        }
                    }
                }
            }
        }
        k = k + 1;
    }
    assert(requests@.take(k as int) =~= requests@);
    objects.len()
}

/// A computer player can place on tile `p`: it is the player's, and holds no
/// building (or, for an ability, no ability) yet.
pub open spec fn target_fits(g: TileGrid, p: TilePos, player: usize, for_ability: bool) -> bool {
    match g.spec_tile(p) {
        Some(t) => (if for_ability { !t.has_ability } else { !t.has_building }) && match t.claim {
            Some(c) => c.player == player,
            None => false,
        },
        None => false,
    }
}

/// The number of different objects asking to colour tile `p`.
pub open spec fn request_count(c: ColorConflicts, p: TilePos) -> nat {
    distinct_objects(c.conflicts.spec_at(p))
}

/// No tile with a conflict fits.
pub open spec fn no_conflict_fits(g: TileGrid, c: ColorConflicts, player: usize, for_ability: bool) -> bool {
    forall|i: int| 0 <= i < c.conflicts.spec_keys().len() ==> !#[trigger] target_fits(g, c.conflicts.spec_keys()[i], player, for_ability)
}

/// The `i`-th tile with a conflict fits, with the fewest requesting objects
/// among those that fit, and no earlier one that fits has as few.
pub open spec fn first_fewest(g: TileGrid, c: ColorConflicts, player: usize, for_ability: bool, i: int) -> bool {
    let keys = c.conflicts.spec_keys();
    &&& 0 <= i < keys.len()
    &&& target_fits(g, keys[i], player, for_ability)
    &&& forall|j: int| 0 <= j < keys.len() && #[trigger] target_fits(g, keys[j], player, for_ability)
        ==> request_count(c, keys[i]) <= request_count(c, keys[j])
    &&& forall|j: int| 0 <= j < i && #[trigger] target_fits(g, keys[j], player, for_ability)
        ==> request_count(c, keys[i]) < request_count(c, keys[j])
}

/// `r` is where a computer player places on a conflict: among the tiles with
/// conflicts, in the order they were first contested, the first of those
/// that fit with the fewest requesting objects, with that number; none when
/// none fits.
pub open spec fn is_conflict_target(
    g: TileGrid,
    c: ColorConflicts,
    player: usize,
    for_ability: bool,
    r: Option<(TilePos, usize)>,
) -> bool {
    match r {
        None => no_conflict_fits(g, c, player, for_ability),
        Some((p, n)) => exists|i: int| #[trigger] first_fewest(g, c, player, for_ability, i)
            && p == c.conflicts.spec_keys()[i] && n == request_count(c, p),
    }
}

/// Finds where a computer player places on a conflict, for a building or,
/// with `for_ability`, for an ability.
pub fn conflict_target(grid: &TileGrid, conflicts: &ColorConflicts, player: usize, for_ability: bool) -> (r: Option<(TilePos, usize)>)
    requires
        grid.wf(),
        conflicts.wf(),
    ensures
        is_conflict_target(*grid, *conflicts, player, for_ability, r),
{
    let ghost g = *grid;
    let ghost c = *conflicts;
    let ghost keys = conflicts.conflicts.spec_keys();
    let n = conflicts.conflicts.len();
    let mut best: Option<(TilePos, usize)> = None;
    let ghost mut best_i: int = 0;
    let mut k: usize = 0;
    while k < n
        invariant
            grid.wf(),
            conflicts.wf(),
            g == *grid,
            c == *conflicts,
            keys == conflicts.conflicts.spec_keys(),
            n == keys.len(),
            k <= n,
            best is None ==> forall|j: int| 0 <= j < k ==> !#[trigger] target_fits(g, keys[j], player, for_ability),
            best is Some ==> {
                &&& 0 <= best_i < k
                &&& keys[best_i] == best.unwrap().0
                &&& best.unwrap().1 == request_count(c, keys[best_i])
                &&& target_fits(g, keys[best_i], player, for_ability)
                &&& forall|j: int| 0 <= j < k && #[trigger] target_fits(g, keys[j], player, for_ability)
                    ==> request_count(c, keys[best_i]) <= request_count(c, keys[j])
                &&& forall|j: int| 0 <= j < best_i && #[trigger] target_fits(g, keys[j], player, for_ability)
                    ==> request_count(c, keys[best_i]) < request_count(c, keys[j])
            },
        decreases n - k,
    {
        let p = conflicts.conflicts.key(k);
        let fits = match grid.get(p) {
            Some(t) => {
                let free = if for_ability { !t.has_ability } else { !t.has_building };
                free && match t.claim {
                    Some(claim) => claim.player == player,
                    None => false,
                }
            },
            None => false,
        };
        assert(fits == target_fits(g, keys[k as int], player, for_ability));
        if fits {
            let requests = conflicts.conflicts.get(p);
            let count = count_distinct_objects(&requests);
            match best {
                None => {
                    best = Some((p, count));
                    proof {
                        best_i = k as int;
                    }
                },
                Some((_, b)) => {
                    if count < b {
                        best = Some((p, count));
                        proof {
                            best_i = k as int;
                        }
                    }
                },
            }
        }
        k = k + 1;
    }
    proof {
        if best is Some {
            assert(first_fewest(g, c, player, for_ability, best_i));
        }
    }
    best
}

/// The tiles a computer player looks at around `target`, in order: left, up,
/// right and down; a step off the low edge of the map stays on the edge.
pub open spec fn ai_neighbor(target: TilePos, k: int) -> TilePos {
    if k == 0 {
        TilePos { x: if target.x == 0 { 0 } else { (target.x - 1) as u32 }, y: target.y }
    } else if k == 1 {
        TilePos { x: target.x, y: (target.y + 1) as u32 }
    } else if k == 2 {
        TilePos { x: (target.x + 1) as u32, y: target.y }
    } else {
        TilePos { x: target.x, y: if target.y == 0 { 0 } else { (target.y - 1) as u32 } }
    }
}

/// Tile `q` is a colourable tile that `player` does not hold.
pub open spec fn open_to_take(g: TileGrid, q: TilePos, player: usize) -> bool {
    match g.spec_tile(q) {
        Some(t) => t.tile_type == TileType::Colorable && match t.claim {
            Some(c) => c.player != player,
            None => true,
        },
        None => false,
    }
}

/// Some tile around `target` is a colourable tile that `player` does not
/// hold: a building there would have something to take.
pub open spec fn neighbor_not_same(g: TileGrid, target: TilePos, player: usize) -> bool {
    exists|k: int| 0 <= k < 4 && #[trigger] open_to_take(g, ai_neighbor(target, k), player)
}

/// Whether `tile_pos` lies on a map of the given size.
pub fn check_in_bounds(tile_pos: TilePos, map_size: &TilemapSize) -> (r: bool)
    requires
        map_size.x > 0,
        map_size.y > 0,
    ensures
        r == in_bounds(tile_pos, *map_size),
{
    if tile_pos.x > map_size.x - 1 {
        return false;
    }
    if tile_pos.y > map_size.y - 1 {
        return false;
    }
    true
}

/// Whether some tile around `target` is a colourable tile that
/// `checking_player_id` does not hold.
pub fn check_if_neighbor_not_same(target: TilePos, checking_player_id: usize, grid: &TileGrid) -> (r: bool)
    requires
        grid.wf(),
        in_bounds(target, grid.spec_size()),
    ensures
        r == neighbor_not_same(*grid, target, checking_player_id),
{
    let size = grid.size();
    proof {
        grid.lemma_grid_facts();
    }
    let mut count: usize = 0;
    while count < 4
        invariant
            grid.wf(),
            size == grid.spec_size(),
            in_bounds(target, size),
            size.x < 0x8000_0000,
            size.y < 0x8000_0000,
            forall|p: TilePos| #[trigger] grid.spec_tile(p) is Some ==> in_bounds(p, size),
            count <= 4,
            forall|k: int| 0 <= k < count ==> !#[trigger] open_to_take(*grid, ai_neighbor(target, k), checking_player_id),
        decreases 4 - count,
    {
        let tile_pos = if count == 0 {
            TilePos { x: target.x.saturating_sub(1), y: target.y }
        } else if count == 1 {
            TilePos { x: target.x, y: target.y + 1 }
        } else if count == 2 {
            TilePos { x: target.x + 1, y: target.y }
        } else {
            TilePos { x: target.x, y: target.y.saturating_sub(1) }
        };
        assert(tile_pos == ai_neighbor(target, count as int));
        if check_in_bounds(tile_pos, &size) {
            match grid.get(tile_pos) {
                Some(t) => {
                    match t.tile_type {
                        TileType::Colorable => {
                            match t.claim {
                                Some(claim) => {
                                    if claim.player != checking_player_id {
                                        assert(open_to_take(*grid, ai_neighbor(target, count as int), checking_player_id));
                                        return true;
                                    }
                                },
                                None => {
                                    assert(open_to_take(*grid, ai_neighbor(target, count as int), checking_player_id));
                                    return true;
                                },
                            }
                        },
                        TileType::NonColorable => {},
                    }
                },
                None => {},
            }
        }
        count = count + 1;
    }
    false
}

/// The `i`-th cell holds a tile of `player` without a building, next to a
/// tile it could take.
pub open spec fn emergency_fits(g: TileGrid, i: int, player: usize) -> bool {
    match g.spec_cells()[i] {
        Some(t) => !t.has_building && match t.claim {
            Some(c) => c.player == player,
            None => false,
        } && neighbor_not_same(g, g.spec_position(i), player),
        None => false,
    }
}

/// `r` is where a computer player places a building when no conflict tile
/// fits: the first of its tiles, in row order, without a building and next
/// to a tile it could take, counted as having no requests; none when there
/// is no such tile.
pub open spec fn is_emergency_target(g: TileGrid, player: usize, r: Option<(TilePos, usize)>) -> bool {
    match r {
        None => forall|i: int| 0 <= i < g.spec_cell_count() ==> !#[trigger] emergency_fits(g, i, player),
        Some((p, n)) => n == 0 && exists|i: int|
            0 <= i < g.spec_cell_count() && #[trigger] emergency_fits(g, i, player) && p == g.spec_position(i)
                && forall|j: int| 0 <= j < i ==> !#[trigger] emergency_fits(g, j, player),
    }
}

/// Finds where a computer player places a building when no conflict tile fits.
pub fn emergency_target(grid: &TileGrid, player: usize) -> (r: Option<(TilePos, usize)>)
    requires
        grid.wf(),
    ensures
        is_emergency_target(*grid, player, r),
{
    proof {
        grid.lemma_cells();
    }
    let n = grid.cell_count();
    let mut i: usize = 0;
    while i < n
        invariant
            grid.wf(),
            n == grid.spec_cell_count(),
            grid.spec_cells().len() == n,
            forall|j: int| 0 <= j < n ==> in_bounds(#[trigger] grid.spec_position(j), grid.spec_size()),
            i <= n,
            forall|j: int| 0 <= j < i ==> !#[trigger] emergency_fits(*grid, j, player),
        decreases n - i,
    {
        match grid.cell(i) {
            Some(t) => {
                let owned = match t.claim {
                    Some(claim) => claim.player == player,
                    None => false,
                };
                if owned && !t.has_building {
                    let pos = grid.position(i);
                    assert(in_bounds(grid.spec_position(i as int), grid.spec_size()));
                    if check_if_neighbor_not_same(pos, player, grid) {
                        assert(emergency_fits(*grid, i as int, player));
                        return Some((pos, 0));
                    }
                }
            },
            None => {},
        }
        i = i + 1;
    }
    None
}

/// `r` is where a computer player places a building: on a conflict tile as
/// `conflict_target` finds it, or, when no conflict tile fits, as
/// `emergency_target` finds it.
pub open spec fn is_ai_building_target(g: TileGrid, c: ColorConflicts, player: usize, r: Option<(TilePos, usize)>) -> bool {
    if no_conflict_fits(g, c, player, false) {
        is_emergency_target(g, player, r)
    } else {
        is_conflict_target(g, c, player, false, r)
    }
}

/// Finds where a computer player places a building, with the number of
/// objects contesting the tile.
pub fn ai_building_target(grid: &TileGrid, conflicts: &ColorConflicts, player: usize) -> (r: Option<(TilePos, usize)>)
    requires
        grid.wf(),
        conflicts.wf(),
    ensures
        is_ai_building_target(*grid, *conflicts, player, r),
{
    match conflict_target(grid, conflicts, player, false) {
        Some(t) => {
            proof {
                let i = choose|i: int| #[trigger] first_fewest(*grid, *conflicts, player, false, i)
                    && t.0 == conflicts.conflicts.spec_keys()[i] && t.1 == request_count(*conflicts, t.0);
                assert(target_fits(*grid, conflicts.conflicts.spec_keys()[i], player, false));
            }
            Some(t)
        },
        None => emergency_target(grid, player),
    }
}

/// The building a computer player picks for a tile contested by `count`
/// objects, given a coin and a die of three faces: on an uncontested tile a
/// line or a pulser by the coin; on a tile with one contestant a scatter, a
/// line or a pulser by the die; on a busier tile a scatter or a pulser by the
/// coin.
pub open spec fn building_for_count(count: nat, coin: bool, die: u32) -> BuildingTypes {
    if count == 0 {
        if coin { BuildingTypes::Line } else { BuildingTypes::Pulser }
    } else if count == 1 {
        if die == 0 {
            BuildingTypes::Scatter
        } else if die == 1 {
            BuildingTypes::Line
        } else {
            BuildingTypes::Pulser
        }
    } else {
        if coin { BuildingTypes::Scatter } else { BuildingTypes::Pulser }
    }
}

/// Picks the building for a tile contested by `count` objects, given the
/// coin and the die.
pub fn ai_building_for(count: usize, coin: bool, die: u32) -> (b: BuildingTypes)
    ensures
        b == building_for_count(count as nat, coin, die),
{
    if count == 0 {
        if coin { BuildingTypes::Line } else { BuildingTypes::Pulser }
    } else if count == 1 {
        if die == 0 {
            BuildingTypes::Scatter
        } else if die == 1 {
            BuildingTypes::Line
        } else {
            BuildingTypes::Pulser
        }
    } else {
        if coin { BuildingTypes::Scatter } else { BuildingTypes::Pulser }
    }
}

/// Draws the coin and the die that pick the building for a tile contested
/// by `count` objects: the coin of an uncontested tile is fair, the die is
/// fair, and the coin of a busier tile shows a scatter three times in five.
/// Only the draw that counts is made; the other is left at `false` or 0.
pub fn building_draws(count: usize) -> (r: (bool, u32))
    ensures
        r.1 <= 2,
        count != 1 ==> r.1 == 0,
        count == 1 ==> !r.0,
{
    if count == 0 {
        (random_ratio(1, 2), 0)
    } else if count == 1 {
        (false, random_between(0, 2))
    } else {
        (random_ratio(3, 5), 0)
    }
}

/// Picks the building for a tile contested by `count` objects at random (see
/// `building_draws`).
pub fn pick_ai_building(count: usize) -> (b: BuildingTypes)
    ensures
        exists|coin: bool, die: u32| die <= 2 && b == building_for_count(count as nat, coin, die),
{
    let (coin, die) = building_draws(count);
    ai_building_for(count, coin, die)
}

/// A computer player's requests at the start of its turn: everything it
/// asked for last step is cleared, its selections are kept.
pub open spec fn cleared_for_ai(a: Actions) -> Actions {
    Actions {
        building_tile_pos: None,
        ability_tile_pos: None,
        target_world_pos: false,
        try_place_ability: false,
        try_place_building: false,
        placed_building: false,
        placed_ability: false,
        ..a
    }
}

/// A computer player's requests after its building turn, given where it
/// would place, whether it acts this step, and the coin and die that pick
/// the building. It only places with 50 building points or more.
pub open spec fn ai_building_outcome(
    a: Actions,
    points: PlayerPoints,
    target: Option<(TilePos, usize)>,
    acts: bool,
    coin: bool,
    die: u32,
) -> Actions {
    let cleared = cleared_for_ai(a);
    if points.building_points < 50 || !acts {
        cleared
    } else {
        match target {
            None => cleared,
            Some((p, n)) => Actions {
                selected_building: building_for_count(n as nat, coin, die),
                try_place_building: true,
                building_tile_pos: Some(p),
                ..cleared
            },
        }
    }
}

/// A computer player's requests after its building turn, given where it
/// would place, whether it acts this step, and the coin and die that pick
/// the building (see `ai_building_outcome`).
pub fn ai_building_turn(
    a: Actions,
    points: PlayerPoints,
    target: Option<(TilePos, usize)>,
    acts: bool,
    coin: bool,
    die: u32,
) -> (r: Actions)
    ensures
        r == ai_building_outcome(a, points, target, acts, coin, die),
{
    let mut r = a;
    r.building_tile_pos = None;
    r.ability_tile_pos = None;
    r.target_world_pos = false;
    r.try_place_ability = false;
    r.try_place_building = false;
    r.placed_building = false;
    r.placed_ability = false;
    if points.building_points < 50 || !acts {
        return r;
    }
    match target {
        Some((p, n)) => {
            r.selected_building = ai_building_for(n, coin, die);
            r.try_place_building = true;
            r.building_tile_pos = Some(p);
        },
        None => {},
    }
    r
}

/// One building turn of a computer player. The human player, player 0, is
/// left alone. A computer player with 50 building points or more acts four
/// steps in five; which steps, and the building picked, are left to chance
/// (see `building_draws`); the rest is `ai_building_turn`.
pub fn run_ai_building_for(grid: &TileGrid, conflicts: &ColorConflicts, player: &PlayerRecord, actions: &mut Actions)
    requires
        grid.wf(),
        conflicts.wf(),
    ensures
        player.id == 0 ==> *final(actions) == *old(actions),
        player.id != 0 ==> exists|target: Option<(TilePos, usize)>, acts: bool, coin: bool, die: u32|
            is_ai_building_target(*grid, *conflicts, player.id, target) && die <= 2
                && *final(actions) == ai_building_outcome(*old(actions), player.points, target, acts, coin, die),
{
    if player.id == 0 {
        return;
    }
    let target = ai_building_target(grid, conflicts, player.id);
    let acts = player.points.building_points >= 50 && random_ratio(4, 5);
    let (coin, die) = match target {
        Some((_, n)) => if acts {
            building_draws(n)
        } else {
            (false, 0)
        },
        None => (false, 0),
    };
    *actions = ai_building_turn(*actions, player.points, target, acts, coin, die);
}

/// The last cell, in row order, holding a tile that no player holds.
pub open spec fn last_unclaimed(cells: Seq<Option<TileState>>) -> Option<int>
    decreases cells.len(),
{
    if cells.len() == 0 {
        None
    } else if cells.last() matches Some(t) && t.claim is None {
        Some(cells.len() - 1)
    } else {
        last_unclaimed(cells.drop_last())
    }
}

/// The last cell, in row order, holding a tile of a player other than `player`.
pub open spec fn last_rival(cells: Seq<Option<TileState>>, player: usize) -> Option<int>
    decreases cells.len(),
{
    if cells.len() == 0 {
        None
    } else if cells.last() matches Some(t) && t.claim matches Some(c) && c.player != player {
        Some(cells.len() - 1)
    } else {
        last_rival(cells.drop_last(), player)
    }
}

/// The cell found by `last_unclaimed` or `last_rival` is one of the list's.
proof fn lemma_last_in_range(cells: Seq<Option<TileState>>, player: usize)
    ensures
        last_unclaimed(cells) matches Some(j) ==> 0 <= j < cells.len(),
        last_rival(cells, player) matches Some(j) ==> 0 <= j < cells.len(),
    decreases cells.len(),
{
    if cells.len() > 0 {
        lemma_last_in_range(cells.drop_last(), player);
    }
}

/// A cell holding a tile of a player other than `player`.
pub open spec fn rival_cell(cell: Option<TileState>, player: usize) -> bool {
    match cell {
        Some(t) => match t.claim {
            Some(c) => c.player != player,
            None => false,
        },
        None => false,
    }
}

/// A cell holding a tile nobody holds.
pub open spec fn free_cell(cell: Option<TileState>) -> bool {
    match cell {
        Some(t) => t.claim is None,
        None => false,
    }
}

/// The cell `last_rival` finds holds a tile of another player, and the cell
/// `last_unclaimed` finds a tile nobody holds.
proof fn lemma_last_targets(cells: Seq<Option<TileState>>, player: usize)
    ensures
        match last_rival(cells, player) {
            Some(j) => rival_cell(cells[j], player),
            None => true,
        },
        match last_unclaimed(cells) {
            Some(j) => free_cell(cells[j]),
            None => true,
        },
    decreases cells.len(),
{
    if cells.len() > 0 {
        lemma_last_targets(cells.drop_last(), player);
        lemma_last_in_range(cells.drop_last(), player);
    }
}

/// A computer player only nukes a tile another player holds, and only
/// expands onto a tile nobody holds.
pub proof fn lemma_ai_ability_targets(g: TileGrid, player: usize)
    requires
        g.wf(),
    ensures
        match nuke_target(g, player) {
            Some(p) => rival_cell(g.spec_tile(p), player),
            None => true,
        },
        match expand_target(g) {
            Some(p) => free_cell(g.spec_tile(p)),
            None => true,
        },
{
    let cells = g.spec_cells();
    g.lemma_cells();
    lemma_last_targets(cells, player);
    lemma_last_in_range(cells, player);
    if let Some(i) = last_rival(cells, player) {
        assert(in_bounds(g.spec_position(i), g.spec_size()));
        assert(cells[g.spec_index(g.spec_position(i))] == g.spec_tile(g.spec_position(i)));
    }
    if let Some(i) = last_unclaimed(cells) {
        assert(in_bounds(g.spec_position(i), g.spec_size()));
        assert(cells[g.spec_index(g.spec_position(i))] == g.spec_tile(g.spec_position(i)));
    }
}

/// Where a computer player expands: the last tile, in row order, that no
/// player holds.
pub open spec fn expand_target(g: TileGrid) -> Option<TilePos> {
    match last_unclaimed(g.spec_cells()) {
        Some(i) => Some(g.spec_position(i)),
        None => None,
    }
}

/// Where a computer player nukes: the last tile, in row order, of another
/// player.
pub open spec fn nuke_target(g: TileGrid, player: usize) -> Option<TilePos> {
    match last_rival(g.spec_cells(), player) {
        Some(i) => Some(g.spec_position(i)),
        None => None,
    }
}

/// Finds where a computer player expands, or with `nuke` where it nukes.
fn last_target(grid: &TileGrid, player: usize, nuke: bool) -> (r: Option<TilePos>)
    requires
        grid.wf(),
    ensures
        r == (if nuke { nuke_target(*grid, player) } else { expand_target(*grid) }),
{
    proof {
        grid.lemma_cells();
    }
    let ghost cells = grid.spec_cells();
    let n = grid.cell_count();
    let mut found: Option<usize> = None;
    let mut i: usize = 0;
    while i < n
        invariant
            grid.wf(),
            cells == grid.spec_cells(),
            n == cells.len(),
            n == grid.spec_cell_count(),
            i <= n,
            nuke ==> found == (match last_rival(cells.take(i as int), player) { Some(j) => Some(j as usize), None => None::<usize> }),
            !nuke ==> found == (match last_unclaimed(cells.take(i as int)) { Some(j) => Some(j as usize), None => None::<usize> }),
            forall|j: usize| found == Some(j) ==> j < i,
        decreases n - i,
    {
        let cell = grid.cell(i);
        proof {
            let s = cells.take(i + 1);
            assert(s.drop_last() =~= cells.take(i as int));
            assert(s.last() == cells[i as int]);
            lemma_last_in_range(cells.take(i as int), player);
        }
        let hit = match cell {
            Some(t) => match t.claim {
                Some(claim) => nuke && claim.player != player,
                None => !nuke,
            },
            None => false,
        };
        if hit {
            found = Some(i);
        }
        i = i + 1;
    }
    assert(cells.take(n as int) =~= cells);
    proof {
        lemma_last_in_range(cells, player);
    }
    match found {
        Some(j) => Some(grid.position(j)),
        None => None,
    }
}

/// A computer player's requests after its ability turn, given where it would
/// fortify, expand and nuke, whether it sits this step out, and which of the
/// three it picks (0 fortify, 1 expand, other nuke). It only places with 50
/// ability points or more, and keeps its requests when there is nowhere to
/// place the ability it picked.
pub open spec fn ai_ability_outcome(
    a: Actions,
    points: PlayerPoints,
    fortify: Option<(TilePos, usize)>,
    expand: Option<TilePos>,
    nuke: Option<TilePos>,
    skip: bool,
    pick: u32,
) -> Actions {
    if points.ability_points < 50 || skip {
        a
    } else if pick == 0 {
        match fortify {
            Some((p, _)) => Actions { selected_ability: Abilities::Fortify, try_place_ability: true, ability_tile_pos: Some(p), ..a },
            None => a,
        }
    } else if pick == 1 {
        match expand {
            Some(p) => Actions { selected_ability: Abilities::Expand, try_place_ability: true, ability_tile_pos: Some(p), ..a },
            None => a,
        }
    } else {
        match nuke {
            Some(p) => Actions { selected_ability: Abilities::Nuke, try_place_ability: true, ability_tile_pos: Some(p), ..a },
            None => a,
        }
    }
}

/// A computer player's requests after its ability turn, given where it
/// would fortify, expand and nuke, whether it sits this step out, and which
/// of the three it picks (see `ai_ability_outcome`).
pub fn ai_ability_turn(
    a: Actions,
    points: PlayerPoints,
    fortify: Option<(TilePos, usize)>,
    expand: Option<TilePos>,
    nuke: Option<TilePos>,
    skip: bool,
    pick: u32,
) -> (r: Actions)
    ensures
        r == ai_ability_outcome(a, points, fortify, expand, nuke, skip, pick),
{
    let mut r = a;
    if points.ability_points < 50 || skip {
        return r;
    }
    if pick == 0 {
        match fortify {
            Some((p, _)) => {
                r.selected_ability = Abilities::Fortify;
                r.try_place_ability = true;
                r.ability_tile_pos = Some(p);
            },
            None => {},
        }
    } else if pick == 1 {
        match expand {
            Some(p) => {
                r.selected_ability = Abilities::Expand;
                r.try_place_ability = true;
                r.ability_tile_pos = Some(p);
            },
            None => {},
        }
    } else {
        match nuke {
            Some(p) => {
                r.selected_ability = Abilities::Nuke;
                r.try_place_ability = true;
                r.ability_tile_pos = Some(p);
            },
            None => {},
        }
    }
    r
}

/// One ability turn of a computer player. The human player, player 0, is
/// left alone. A computer player with 50 ability points or more sits out
/// three steps in ten and otherwise picks one of the three abilities evenly;
/// which steps, and which ability, are left to chance; the rest is
/// `ai_ability_turn`.
pub fn run_ai_ability_for(grid: &TileGrid, conflicts: &ColorConflicts, player: &PlayerRecord, actions: &mut Actions)
    requires
        grid.wf(),
        conflicts.wf(),
    ensures
        player.id == 0 ==> *final(actions) == *old(actions),
        player.id != 0 ==> exists|fortify: Option<(TilePos, usize)>, skip: bool, pick: u32|
            is_conflict_target(*grid, *conflicts, player.id, true, fortify) && pick <= 2
                && *final(actions) == ai_ability_outcome(
                *old(actions),
                player.points,
                fortify,
                expand_target(*grid),
                nuke_target(*grid, player.id),
                skip,
                pick,
            ),
{
    if player.id == 0 {
        return;
    }
    let fortify = conflict_target(grid, conflicts, player.id, true);
    let expand = last_target(grid, player.id, false);
    let nuke = last_target(grid, player.id, true);
    let enough = player.points.ability_points >= 50;
    let skip = enough && random_ratio(3, 10);
    let pick = if enough && !skip {
        random_between(0, 2)
    } else {
        0
    };
    *actions = ai_ability_turn(*actions, player.points, fortify, expand, nuke, skip, pick);
}

/// The building turn of every computer player, each with the requests at
/// the same index (see `run_ai_building_for`).
pub fn run_ai_building(grid: &TileGrid, conflicts: &ColorConflicts, players: &Vec<PlayerRecord>, actions: &mut Vec<Actions>)
    requires
        grid.wf(),
        conflicts.wf(),
        old(actions)@.len() == players@.len(),
    ensures
        final(actions)@.len() == players@.len(),
        forall|i: int| 0 <= i < players@.len() && #[trigger] players@[i].id == 0 ==> final(actions)@[i] == old(actions)@[i],
        forall|i: int| 0 <= i < players@.len() && #[trigger] players@[i].id != 0 ==> exists|
            target: Option<(TilePos, usize)>,
            acts: bool,
            coin: bool,
            die: u32,
        |
            is_ai_building_target(*grid, *conflicts, players@[i].id, target) && die <= 2
                && final(actions)@[i] == ai_building_outcome(old(actions)@[i], players@[i].points, target, acts, coin, die),
{
    let ghost start = actions@;
    let mut i: usize = 0;
    while i < players.len()
        invariant
            grid.wf(),
            conflicts.wf(),
            start.len() == players@.len(),
            actions@.len() == players@.len(),
            i <= players@.len(),
            forall|j: int| i <= j < players@.len() ==> actions@[j] == start[j],
            forall|j: int| 0 <= j < i && #[trigger] players@[j].id == 0 ==> actions@[j] == start[j],
            forall|j: int| 0 <= j < i && #[trigger] players@[j].id != 0 ==> exists|
                target: Option<(TilePos, usize)>,
                acts: bool,
                coin: bool,
                die: u32,
            |
                is_ai_building_target(*grid, *conflicts, players@[j].id, target) && die <= 2
                    && actions@[j] == ai_building_outcome(start[j], players@[j].points, target, acts, coin, die),
        decreases players@.len() - i,
    {
        let mut a = actions[i];
        run_ai_building_for(grid, conflicts, &players[i], &mut a);
        actions.set(i, a);
        i = i + 1;
    }
}

/// The ability turn of every computer player, each with the requests at
/// the same index (see `run_ai_ability_for`).
pub fn run_ai_ability(grid: &TileGrid, conflicts: &ColorConflicts, players: &Vec<PlayerRecord>, actions: &mut Vec<Actions>)
    requires
        grid.wf(),
        conflicts.wf(),
        old(actions)@.len() == players@.len(),
    ensures
        final(actions)@.len() == players@.len(),
        forall|i: int| 0 <= i < players@.len() && #[trigger] players@[i].id == 0 ==> final(actions)@[i] == old(actions)@[i],
        forall|i: int| 0 <= i < players@.len() && #[trigger] players@[i].id != 0 ==> exists|
            fortify: Option<(TilePos, usize)>,
            skip: bool,
            pick: u32,
        |
            is_conflict_target(*grid, *conflicts, players@[i].id, true, fortify) && pick <= 2
                && final(actions)@[i] == ai_ability_outcome(
                old(actions)@[i],
                players@[i].points,
                fortify,
                expand_target(*grid),
                nuke_target(*grid, players@[i].id),
                skip,
                pick,
            ),
{
    let ghost start = actions@;
    let mut i: usize = 0;
    while i < players.len()
        invariant
            grid.wf(),
            conflicts.wf(),
            start.len() == players@.len(),
            actions@.len() == players@.len(),
            i <= players@.len(),
            forall|j: int| i <= j < players@.len() ==> actions@[j] == start[j],
            forall|j: int| 0 <= j < i && #[trigger] players@[j].id == 0 ==> actions@[j] == start[j],
            forall|j: int| 0 <= j < i && #[trigger] players@[j].id != 0 ==> exists|
                fortify: Option<(TilePos, usize)>,
                skip: bool,
                pick: u32,
            |
                is_conflict_target(*grid, *conflicts, players@[j].id, true, fortify) && pick <= 2
                    && actions@[j] == ai_ability_outcome(
                    start[j],
                    players@[j].points,
                    fortify,
                    expand_target(*grid),
                    nuke_target(*grid, players@[j].id),
                    skip,
                    pick,
                ),
        decreases players@.len() - i,
    {
        let mut a = actions[i];
        run_ai_ability_for(grid, conflicts, &players[i], &mut a);
        actions.set(i, a);
        i = i + 1;
    }
}

/// One turn of every computer player: first the building turn of all of
/// them, then the ability turn of all of them, each player with the requests
/// at the same index.
pub fn run_ai(grid: &TileGrid, conflicts: &ColorConflicts, players: &Vec<PlayerRecord>, actions: &mut Vec<Actions>)
    requires
        grid.wf(),
        conflicts.wf(),
        old(actions)@.len() == players@.len(),
    ensures
        final(actions)@.len() == players@.len(),
        forall|i: int| 0 <= i < players@.len() && #[trigger] players@[i].id == 0 ==> final(actions)@[i] == old(actions)@[i],
        forall|i: int| 0 <= i < players@.len() && #[trigger] players@[i].id != 0 ==> exists|
            target: Option<(TilePos, usize)>,
            acts: bool,
            coin: bool,
            die: u32,
            fortify: Option<(TilePos, usize)>,
            skip: bool,
            pick: u32,
        |
            is_ai_building_target(*grid, *conflicts, players@[i].id, target) && die <= 2
                && is_conflict_target(*grid, *conflicts, players@[i].id, true, fortify) && pick <= 2
                && final(actions)@[i] == ai_ability_outcome(
                ai_building_outcome(old(actions)@[i], players@[i].points, target, acts, coin, die),
                players@[i].points,
                fortify,
                expand_target(*grid),
                nuke_target(*grid, players@[i].id),
                skip,
                pick,
            ),
{
    let ghost start = actions@;
    run_ai_building(grid, conflicts, players, actions);
    let ghost mid = actions@;
    run_ai_ability(grid, conflicts, players, actions);
    proof {
        assert forall|i: int| 0 <= i < players@.len() && #[trigger] players@[i].id != 0 implies exists|
            target: Option<(TilePos, usize)>,
            acts: bool,
            coin: bool,
            die: u32,
            fortify: Option<(TilePos, usize)>,
            skip: bool,
            pick: u32,
        |
            is_ai_building_target(*grid, *conflicts, players@[i].id, target) && die <= 2
                && is_conflict_target(*grid, *conflicts, players@[i].id, true, fortify) && pick <= 2
                && actions@[i] == ai_ability_outcome(
                ai_building_outcome(start[i], players@[i].points, target, acts, coin, die),
                players@[i].points,
                fortify,
                expand_target(*grid),
                nuke_target(*grid, players@[i].id),
                skip,
                pick,
            ) by {
            let (target, acts, coin, die) = choose|target: Option<(TilePos, usize)>, acts: bool, coin: bool, die: u32|
                is_ai_building_target(*grid, *conflicts, players@[i].id, target) && die <= 2
                    && mid[i] == ai_building_outcome(start[i], players@[i].points, target, acts, coin, die);
            let (fortify, skip, pick) = choose|fortify: Option<(TilePos, usize)>, skip: bool, pick: u32|
                is_conflict_target(*grid, *conflicts, players@[i].id, true, fortify) && pick <= 2
                    && actions@[i] == ai_ability_outcome(
                    mid[i],
                    players@[i].points,
                    fortify,
                    expand_target(*grid),
                    nuke_target(*grid, players@[i].id),
                    skip,
                    pick,
                );
            assert(is_ai_building_target(*grid, *conflicts, players@[i].id, target) && die <= 2
                && is_conflict_target(*grid, *conflicts, players@[i].id, true, fortify) && pick <= 2
                && actions@[i] == ai_ability_outcome(
                ai_building_outcome(start[i], players@[i].points, target, acts, coin, die),
                players@[i].points,
                fortify,
                expand_target(*grid),
                nuke_target(*grid, players@[i].id),
                skip,
                pick,
            ));
        }
    }
}

/// A computer player only ever asks to build on a tile it holds that has no
/// building yet, and only ever asks to fortify a tile it holds that has no
/// ability yet.
pub proof fn lemma_ai_targets_own_free_tiles(
    g: TileGrid,
    c: ColorConflicts,
    player: usize,
    building: Option<(TilePos, usize)>,
    fortify: Option<(TilePos, usize)>,
)
    requires
        g.wf(),
        is_ai_building_target(g, c, player, building),
        is_conflict_target(g, c, player, true, fortify),
    ensures
        building matches Some((p, _)) ==> target_fits(g, p, player, false),
        fortify matches Some((p, _)) ==> target_fits(g, p, player, true),
{
    if let Some((p, n)) = building {
        if no_conflict_fits(g, c, player, false) {
            let i = choose|i: int|
                0 <= i < g.spec_cell_count() && #[trigger] emergency_fits(g, i, player) && p == g.spec_position(i)
                    && forall|j: int| 0 <= j < i ==> !#[trigger] emergency_fits(g, j, player);
            g.lemma_cells();
            assert(in_bounds(g.spec_position(i), g.spec_size()));
            assert(g.spec_cells()[g.spec_index(g.spec_position(i))] == g.spec_tile(g.spec_position(i)));
        } else {
            let i = choose|i: int| #[trigger] first_fewest(g, c, player, false, i)
                && p == c.conflicts.spec_keys()[i] && n == request_count(c, p);
        }
    }
    if let Some((p, n)) = fortify {
        let i = choose|i: int| #[trigger] first_fewest(g, c, player, true, i)
            && p == c.conflicts.spec_keys()[i] && n == request_count(c, p);
    }
}

} // verus!
