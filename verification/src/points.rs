//! The points players spend on buildings and abilities, and how they grow.

use vstd::prelude::*;
use crate::random::random_ratio;
use crate::color::TileColorStrength;
use crate::grid::{TileGrid, TileState};

verus! {

broadcast use vstd::seq_lib::group_seq_properties;

/// A player's points: building points buy buildings, ability points buy
/// abilities. Each costs 50.
#[derive(Clone, Copy, PartialEq, Eq, Structural, Debug, Hash)]
pub struct PlayerPoints {
    pub building_points: u32,
    pub ability_points: u32,
}

/// A player taking part in a game, with the points they hold.
#[derive(Clone, Copy, PartialEq, Eq, Structural, Debug, Hash)]
pub struct PlayerRecord {
    pub id: usize,
    pub points: PlayerPoints,
}

/// The most building points a player can reach: at this many the chance of
/// not gaining one more is certain.
pub const BUILDING_POINTS_CAP: u32 = 200;

/// The most ability points a player can reach.
pub const ABILITY_POINTS_CAP: u32 = 150;

/// Building points after one award, given the draw `held_back`: below 50 the
/// award always counts; from 50 on it counts only when the draw says no.
pub open spec fn building_points_after(old: u32, held_back: bool) -> u32 {
    if old < 50 || !held_back {
        if old == u32::MAX { old } else { (old + 1) as u32 }
    } else {
        old
    }
}

/// Ability points after one award, by the same rule as building points.
pub open spec fn ability_points_after(old: u32, held_back: bool) -> u32 {
    building_points_after(old, held_back)
}

/// Gives one award of building points, with `held_back` the random draw that
/// decides it once the player holds 50 or more.
pub fn apply_building_point_roll(points: &mut PlayerPoints, held_back: bool)
    ensures
        final(points).building_points == building_points_after(old(points).building_points, held_back),
        final(points).ability_points == old(points).ability_points,
{
    if points.building_points < 50 || !held_back {
        points.building_points = points.building_points.saturating_add(1);
    }
}

/// Gives one award of ability points, with `held_back` the random draw that
/// decides it once the player holds 50 or more.
pub fn apply_ability_point_roll(points: &mut PlayerPoints, held_back: bool)
    ensures
        final(points).ability_points == ability_points_after(old(points).ability_points, held_back),
        final(points).building_points == old(points).building_points,
{
    if points.ability_points < 50 || !held_back {
        points.ability_points = points.ability_points.saturating_add(1);
    }
}

/// Awards one building point. Below 50 the point always comes; from 50 on it
/// is held back with chance `points / 200`, so at 200 it never comes.
pub fn increase_building_points(points: &mut PlayerPoints)
    requires
        old(points).building_points <= BUILDING_POINTS_CAP,
    ensures
        final(points).ability_points == old(points).ability_points,
        exists|held_back: bool| final(points).building_points == building_points_after(old(points).building_points, held_back),
        old(points).building_points < 50 ==> final(points).building_points == old(points).building_points + 1,
        old(points).building_points == BUILDING_POINTS_CAP ==> final(points).building_points == BUILDING_POINTS_CAP,
        final(points).building_points <= BUILDING_POINTS_CAP,
{
    if points.building_points < 50 {
        apply_building_point_roll(points, false);
        return;
    }
    let held_back = random_ratio(points.building_points, BUILDING_POINTS_CAP);
    apply_building_point_roll(points, held_back);
}

/// Awards one ability point. Below 50 the point always comes; from 50 on it
/// is held back with chance `points / 150`, so at 150 it never comes.
pub fn increase_ability_points(points: &mut PlayerPoints)
    requires
        old(points).ability_points <= ABILITY_POINTS_CAP,
    ensures
        final(points).building_points == old(points).building_points,
        exists|held_back: bool| final(points).ability_points == ability_points_after(old(points).ability_points, held_back),
        old(points).ability_points < 50 ==> final(points).ability_points == old(points).ability_points + 1,
        old(points).ability_points == ABILITY_POINTS_CAP ==> final(points).ability_points == ABILITY_POINTS_CAP,
        final(points).ability_points <= ABILITY_POINTS_CAP,
{
    if points.ability_points < 50 {
        apply_ability_point_roll(points, false);
        return;
    }
    let held_back = random_ratio(points.ability_points, ABILITY_POINTS_CAP);
    apply_ability_point_roll(points, held_back);
}

/// The number of tiles among `cells` that `player` holds at full strength.
pub open spec fn full_tiles(cells: Seq<Option<TileState>>, player: usize) -> nat
    decreases cells.len(),
{
    if cells.len() == 0 {
        0
    } else {
        full_tiles(cells.drop_last(), player) + match cells.last() {
            Some(t) => match t.claim {
                Some(c) => if c.player == player && c.color.tile_color_strength == TileColorStrength::Five {
                    1nat
                } else {
                    0nat
                },
                None => 0nat,
            },
            None => 0nat,
        }
    }
}

/// Counts the tiles of the grid that `player` holds at full strength,
/// stopping at the largest `u32`.
pub fn count_full_tiles(grid: &TileGrid, player: usize) -> (n: u32)
    requires
        grid.wf(),
    ensures
        n == (if full_tiles(grid.spec_cells(), player) > u32::MAX { u32::MAX as nat } else { full_tiles(grid.spec_cells(), player) }),
{
    proof {
        grid.lemma_cells();
    }
    let ghost cells = grid.spec_cells();
    let total = grid.cell_count();
    let mut n: u32 = 0;
    let mut i: usize = 0;
    while i < total
        invariant
            grid.wf(),
            cells == grid.spec_cells(),
            total == cells.len(),
            total == grid.spec_cell_count(),
            i <= total,
            n == (if full_tiles(cells.take(i as int), player) > u32::MAX { u32::MAX as nat } else { full_tiles(cells.take(i as int), player) }),
        decreases total - i,
    {
        let cell = grid.cell(i);
        proof {
            let s = cells.take(i + 1);
            assert(s.drop_last() =~= cells.take(i as int));
            assert(s.last() == cells[i as int]);
        }
        match cell {
            Some(t) => match t.claim {
                Some(c) => {
                    if c.player == player {
                        match c.color.tile_color_strength {
                            TileColorStrength::Five => {
                                n = n.saturating_add(1);
                            },
                            _ => {},
                        }
                    }
                },
                None => {},
            },
            None => {},
        }
        i = i + 1;
    }
    assert(cells.take(total as int) =~= cells);
    n
}

/// Building points after a run of awards, each decided by its draw as in
/// `building_points_after`.
pub open spec fn after_awards(points: u32, draws: Seq<bool>) -> u32
    decreases draws.len(),
{
    if draws.len() == 0 {
        points
    } else {
        building_points_after(after_awards(points, draws.drop_last()), draws.last())
    }
}

/// How many building awards a player earns in one payout: one per 16 tiles
/// held at full strength.
pub open spec fn award_count(full: nat) -> nat {
    (if full > u32::MAX { u32::MAX as nat } else { full }) / 16
}

/// Pays out building points: each player gets one award per 16 tiles it
/// holds at full strength. Which awards from 50 points on are held back is
/// left to chance; the points stay at most 200.
pub fn update_player_points(grid: &TileGrid, players: &mut Vec<PlayerRecord>)
    requires
        grid.wf(),
        forall|i: int| 0 <= i < old(players)@.len() ==> #[trigger] old(players)@[i].points.building_points <= BUILDING_POINTS_CAP,
    ensures
        final(players)@.len() == old(players)@.len(),
        forall|i: int| 0 <= i < final(players)@.len() ==> {
            &&& #[trigger] final(players)@[i].id == old(players)@[i].id
            &&& final(players)@[i].points.ability_points == old(players)@[i].points.ability_points
            &&& final(players)@[i].points.building_points <= BUILDING_POINTS_CAP
            &&& exists|draws: Seq<bool>| draws.len() == award_count(full_tiles(grid.spec_cells(), old(players)@[i].id))
                && final(players)@[i].points.building_points == after_awards(old(players)@[i].points.building_points, draws)
        },
{
    let ghost start = players@;
    let mut i: usize = 0;
    while i < players.len()
        invariant
            grid.wf(),
            start.len() == players@.len(),
            i <= players@.len(),
            forall|j: int| i <= j < players@.len() ==> players@[j] == start[j],
            forall|j: int| 0 <= j < start.len() ==> #[trigger] start[j].points.building_points <= BUILDING_POINTS_CAP,
            forall|j: int| 0 <= j < i ==> {
                &&& #[trigger] players@[j].id == start[j].id
                &&& players@[j].points.ability_points == start[j].points.ability_points
                &&& players@[j].points.building_points <= BUILDING_POINTS_CAP
                &&& exists|draws: Seq<bool>| draws.len() == award_count(full_tiles(grid.spec_cells(), start[j].id))
                    && players@[j].points.building_points == after_awards(start[j].points.building_points, draws)
            },
        decreases players@.len() - i,
    {
        let mut record = players[i];
        let full = count_full_tiles(grid, record.id);
        let awards = full / 16;
        let ghost mut draws: Seq<bool> = Seq::empty();
        let mut k: u32 = 0;
        while k < awards
            invariant
                k <= awards,
                record.id == start[i as int].id,
                record.points.ability_points == start[i as int].points.ability_points,
                record.points.building_points <= BUILDING_POINTS_CAP,
                draws.len() == k,
                record.points.building_points == after_awards(start[i as int].points.building_points, draws),
            decreases awards - k,
        {
            let ghost before = record.points;
            increase_building_points(&mut record.points);
            proof {
                let held_back = choose|held_back: bool| record.points.building_points == building_points_after(before.building_points, held_back);
                assert(draws.push(held_back).drop_last() =~= draws);
                draws = draws.push(held_back);
            }
            k = k + 1;
        }
        players.set(i, record);
        i = i + 1;
    }
}

} // verus!
