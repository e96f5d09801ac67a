//! Resolving the colour conflicts of one simulation step: the player with the
//! most requests on a tile colours it, and guaranteed conflicts strengthen or
//! damage tiles as the abilities that forced them say.

use vstd::prelude::*;
use crate::color::{damaged, strengthened, TileColor, TileColorStrength};
use crate::conflicts::{ColorConflicts, ConflictType, GuaranteeEntry, PlayerTileChangedCount};
use crate::grid::{TileClaim, TileGrid, TilePos, TileState};
use crate::objects::{ObjectId, TileToObjectIndex};
use crate::points::{increase_ability_points, PlayerRecord, ABILITY_POINTS_CAP};

verus! {

broadcast use vstd::seq_lib::group_seq_properties;

/// The number of requests by `player` in `votes`.
pub open spec fn vote_count(votes: Seq<(usize, usize)>, player: usize) -> nat
    decreases votes.len(),
{
    if votes.len() == 0 {
        0
    } else {
        vote_count(votes.drop_last(), player) + if votes.last().0 == player { 1nat } else { 0nat }
    }
}

/// The index, among the first `n` requests, of the earliest one whose player
/// has the most requests in all of `votes`.
pub open spec fn best_index(votes: Seq<(usize, usize)>, n: nat) -> int
    decreases n,
{
    if n <= 1 {
        0
    } else {
        let k = best_index(votes, (n - 1) as nat);
        if vote_count(votes, votes[n - 1].0) > vote_count(votes, votes[k].0) {
            n - 1
        } else {
            k
        }
    }
}

/// The player who wins a tile: the one with the most requests on it; between
/// players with equally many, the one whose request came first.
pub open spec fn conflict_winner(votes: Seq<(usize, usize)>) -> usize {
    votes[best_index(votes, votes.len())].0
}

/// The claim on a tile after its conflict is won by `winner`: a neutral tile
/// becomes the winner's at strength one; the winner's own tile is
/// strengthened; another player's tile is damaged, and freed at neutral.
pub open spec fn conflict_result(claim: Option<TileClaim>, winner: usize) -> Option<TileClaim> {
    match claim {
        None => Some(TileClaim { player: winner, color: TileColor { tile_color_strength: TileColorStrength::One } }),
        Some(c) => if c.player == winner {
            Some(TileClaim { player: c.player, color: strengthened(c.color) })
        } else if damaged(c.color).tile_color_strength == TileColorStrength::Neutral {
            None
        } else {
            Some(TileClaim { player: c.player, color: damaged(c.color) })
        },
    }
}

/// Winning a tile: a tile nobody holds goes to the winner at strength one;
/// the winner's own tile stays theirs and gains a level, up to five; another
/// player's tile stays that player's one level lower, or is freed when it
/// falls to neutral. The winner never takes another player's tile at once.
pub proof fn lemma_conflict_result_owner(claim: Option<TileClaim>, winner: usize)
    ensures
        match claim {
            None => conflict_result(claim, winner) == Some(
                TileClaim { player: winner, color: TileColor { tile_color_strength: TileColorStrength::One } },
            ),
            Some(c) => if c.player == winner {
                match conflict_result(claim, winner) {
                    Some(r) => r.player == winner && r.color.level() == if c.color.level() == 5 {
                        5
                    } else {
                        c.color.level() + 1
                    },
                    None => false,
                }
            } else {
                match conflict_result(claim, winner) {
                    Some(r) => r.player == c.player && r.color.level() + 1 == c.color.level(),
                    None => c.color.level() <= 1,
                }
            },
        },
{
    if let Some(c) = claim {
        crate::color::lemma_steps_change_level_by_one(c.color);
        crate::color::lemma_level_range(damaged(c.color));
    }
}

/// Winning one's own full-strength tile changes nothing and wakes no object.
pub open spec fn conflict_idle(claim: Option<TileClaim>, winner: usize) -> bool {
    match claim {
        Some(c) => c.player == winner && c.color.tile_color_strength == TileColorStrength::Five,
        None => false,
    }
}

/// Player 0 loses the tile: it was theirs and another player's win freed it.
pub open spec fn conflict_loses_zero(claim: Option<TileClaim>, winner: usize) -> bool {
    match claim {
        Some(c) => c.player != winner && c.player == 0 && damaged(c.color).tile_color_strength
            == TileColorStrength::Neutral,
        None => false,
    }
}

/// `a + b`, stopping at `u32::MAX`.
pub open spec fn sat_add(a: u32, b: nat) -> u32 {
    if a + b > u32::MAX {
        u32::MAX
    } else {
        (a + b) as u32
    }
}

/// The tile at `p` after the conflicts of `cc` are resolved on it.
pub open spec fn resolved_tile(g: TileGrid, cc: ColorConflicts, p: TilePos) -> Option<TileState> {
    resolved_by(g, cc.conflicts.spec_at(p), p)
}

/// The tile at `p` once the requests `votes` for it are resolved: the
/// winner's request decides its claim; without requests it stays.
pub open spec fn resolved_by(g: TileGrid, votes: Seq<(usize, usize)>, p: TilePos) -> Option<TileState> {
    match g.spec_tile(p) {
        Some(t) => if votes.len() == 0 {
            Some(t)
        } else {
            Some(TileState { claim: conflict_result(t.claim, conflict_winner(votes)), ..t })
        },
        None => None,
    }
}

/// The claim on the tile at `p`, if there is a claimed tile.
pub open spec fn tile_claim(g: TileGrid, p: TilePos) -> Option<TileClaim> {
    match g.spec_tile(p) {
        Some(t) => t.claim,
        None => None,
    }
}

/// The counts of player 0's gains and losses after resolving the tiles
/// `keys`, with `zeros` the number of players whose id is 0.
pub open spec fn resolution_counts(
    g: TileGrid,
    cc: ColorConflicts,
    keys: Seq<TilePos>,
    zeros: nat,
) -> PlayerTileChangedCount
    decreases keys.len(),
{
    if keys.len() == 0 {
        PlayerTileChangedCount { player_gained_tiles: 0, player_lost_tiles: 0 }
    } else {
        let prev = resolution_counts(g, cc, keys.drop_last(), zeros);
        let p = keys.last();
        let votes = cc.conflicts.spec_at(p);
        let claim = tile_claim(g, p);
        if votes.len() == 0 {
            prev
        } else if claim is None {
            PlayerTileChangedCount { player_gained_tiles: sat_add(prev.player_gained_tiles, zeros), ..prev }
        } else if conflict_loses_zero(claim, conflict_winner(votes)) {
            PlayerTileChangedCount { player_lost_tiles: sat_add(prev.player_lost_tiles, 1), ..prev }
        } else {
            prev
        }
    }
}

/// The winners of the neutral tiles among `keys`, in order: each earns an
/// ability point award.
pub open spec fn resolution_awards(g: TileGrid, cc: ColorConflicts, keys: Seq<TilePos>) -> Seq<usize>
    decreases keys.len(),
{
    if keys.len() == 0 {
        Seq::empty()
    } else {
        let prev = resolution_awards(g, cc, keys.drop_last());
        let p = keys.last();
        let votes = cc.conflicts.spec_at(p);
        if votes.len() > 0 && tile_claim(g, p) is None {
            prev.push(conflict_winner(votes))
        } else {
            prev
        }
    }
}

/// The objects to simulate again after resolving `keys`: for each tile that
/// changed, the objects that affect it.
pub open spec fn resolution_wakes(
    g: TileGrid,
    cc: ColorConflicts,
    index: TileToObjectIndex,
    keys: Seq<TilePos>,
) -> Seq<ObjectId>
    decreases keys.len(),
{
    if keys.len() == 0 {
        Seq::empty()
    } else {
        let prev = resolution_wakes(g, cc, index, keys.drop_last());
        let p = keys.last();
        let votes = cc.conflicts.spec_at(p);
        if votes.len() > 0 && !conflict_idle(tile_claim(g, p), conflict_winner(votes)) {
            prev + index.spec_at(p)
        } else {
            prev
        }
    }
}

/// The player who wins a tile, by the rule of `conflict_winner`.
pub fn find_conflict_winner(votes: &Vec<(usize, usize)>) -> (w: usize)
    requires
        votes@.len() > 0,
    ensures
        w == conflict_winner(votes@),
{
    let mut best: usize = 0;
    let mut best_count: usize = count_votes(votes, votes[0].0);
    let mut i: usize = 1;
    while i < votes.len()
        invariant
            1 <= i <= votes@.len(),
            best as int == best_index(votes@, i as nat),
            best < votes@.len(),
            best_count == vote_count(votes@, votes@[best as int].0),
        decreases votes@.len() - i,
    {
        let c = count_votes(votes, votes[i].0);
        if c > best_count {
            best = i;
            best_count = c;
        }
        i = i + 1;
    }
    votes[best].0
}

/// The number of requests by `player` in `votes`.
pub fn count_votes(votes: &Vec<(usize, usize)>, player: usize) -> (n: usize)
    ensures
        n == vote_count(votes@, player),
{
    let mut n: usize = 0;
    let mut i: usize = 0;
    while i < votes.len()
        invariant
            i <= votes@.len(),
            n == vote_count(votes@.subrange(0, i as int), player),
            n <= i,
        decreases votes@.len() - i,
    {
        assert(votes@.subrange(0, i + 1).drop_last() =~= votes@.subrange(0, i as int));
        if votes[i].0 == player {
            n = n + 1;
        }
        i = i + 1;
    }
    assert(votes@.subrange(0, i as int) =~= votes@);
    n
}

/// The winner has at least as many requests as any other requester, and
/// strictly more than those whose first request came earlier.
pub proof fn lemma_winner_has_most_votes(votes: Seq<(usize, usize)>)
    requires
        votes.len() > 0,
    ensures
        forall|j: int| 0 <= j < votes.len() ==> vote_count(votes, #[trigger] votes[j].0)
            <= vote_count(votes, conflict_winner(votes)),
        vote_count(votes, conflict_winner(votes)) > 0,
{
    lemma_best_index(votes, votes.len());
    lemma_count_positive(votes, best_index(votes, votes.len()));
}

proof fn lemma_best_index(votes: Seq<(usize, usize)>, n: nat)
    requires
        1 <= n <= votes.len(),
    ensures
        0 <= best_index(votes, n) < n,
        forall|j: int| 0 <= j < n ==> vote_count(votes, #[trigger] votes[j].0) <= vote_count(
            votes,
            votes[best_index(votes, n)].0,
        ),
    decreases n,
{
    if n > 1 {
        lemma_best_index(votes, (n - 1) as nat);
    }
}

proof fn lemma_count_positive(votes: Seq<(usize, usize)>, j: int)
    requires
        0 <= j < votes.len(),
    ensures
        vote_count(votes, votes[j].0) > 0,
    decreases votes.len(),
{
    if j < votes.len() - 1 {
        lemma_count_positive(votes.drop_last(), j);
    }
}

fn resolve_claim(claim: Option<TileClaim>, winner: usize) -> (r: Option<TileClaim>)
    ensures
        r == conflict_result(claim, winner),
{
    match claim {
        None => Some(TileClaim { player: winner, color: TileColor { tile_color_strength: TileColorStrength::One } }),
        Some(c) => {
            let mut color = c.color;
            if c.player == winner {
                color.strengthen();
                Some(TileClaim { player: c.player, color })
            } else {
                color.damage();
                match color.tile_color_strength {
                    TileColorStrength::Neutral => None,
                    _ => Some(TileClaim { player: c.player, color }),
                }
            }
        },
    }
}

fn saturating_add_count(a: u32, b: usize) -> (r: u32)
    ensures
        r == sat_add(a, b as nat),
{
    let total: u128 = a as u128 + b as u128;
    if total > u32::MAX as u128 {
        u32::MAX
    } else {
        total as u32
    }
}

/// The number of players whose id is 0.
pub open spec fn zero_players(players: Seq<PlayerRecord>) -> nat
    decreases players.len(),
{
    if players.len() == 0 {
        0
    } else {
        zero_players(players.drop_last()) + if players.last().id == 0 { 1nat } else { 0nat }
    }
}

fn count_zero_players(players: &Vec<PlayerRecord>) -> (n: usize)
    ensures
        n == zero_players(players@),
{
    let mut n: usize = 0;
    let mut i: usize = 0;
    while i < players.len()
        invariant
            i <= players@.len(),
            n == zero_players(players@.subrange(0, i as int)),
            n <= i,
        decreases players@.len() - i,
    {
        assert(players@.subrange(0, i + 1).drop_last() =~= players@.subrange(0, i as int));
        if players[i].id == 0 {
            n = n + 1;
        }
        i = i + 1;
    }
    assert(players@.subrange(0, i as int) =~= players@);
    n
}

/// Resolves the requests registered on each tile, in the order the tiles
/// were first requested: the tile goes to `conflict_result` of its winner.
/// Returns the winners of neutral tiles (each earns an ability point award)
/// and the objects that affect a changed tile, to be simulated again. The
/// counts are reset, then count player 0's gains (one per player with id 0
/// for each neutral tile claimed) and losses.
pub fn resolve_conflict_tiles(
    conflicts: &ColorConflicts,
    grid: &mut TileGrid,
    counts: &mut PlayerTileChangedCount,
    players: &Vec<PlayerRecord>,
    index: &TileToObjectIndex,
) -> (r: (Vec<usize>, Vec<ObjectId>))
    requires
        conflicts.wf(),
        old(grid).wf(),
        index.wf(),
        forall|i: int| 0 <= i < conflicts.conflicts.spec_keys().len()
            ==> #[trigger] old(grid).spec_tile(conflicts.conflicts.spec_keys()[i]) is Some,
    ensures
        final(grid).wf(),
        final(grid).spec_size() == old(grid).spec_size(),
        forall|p: TilePos| #[trigger] final(grid).spec_tile(p) == resolved_tile(*old(grid), *conflicts, p),
        *final(counts) == resolution_counts(
            *old(grid),
            *conflicts,
            conflicts.conflicts.spec_keys(),
            zero_players(players@),
        ),
        r.0@ == resolution_awards(*old(grid), *conflicts, conflicts.conflicts.spec_keys()),
        r.1@ == resolution_wakes(*old(grid), *conflicts, *index, conflicts.conflicts.spec_keys()),
{
    let ghost g0 = *grid;
    let ghost keys = conflicts.conflicts.spec_keys();
    let zeros = count_zero_players(players);
    counts.player_gained_tiles = 0;
    counts.player_lost_tiles = 0;
    let mut awards: Vec<usize> = Vec::new();
    let mut wakes: Vec<ObjectId> = Vec::new();
    proof {
        conflicts.conflicts.lemma_keys();
        assert(keys.subrange(0, 0) =~= Seq::<TilePos>::empty());
    }
    let n = conflicts.conflicts.len();
    let mut i: usize = 0;
    while i < n
        invariant
            conflicts.wf(),
            index.wf(),
            grid.wf(),
            grid.spec_size() == g0.spec_size(),
            n == keys.len(),
            keys == conflicts.conflicts.spec_keys(),
            zeros == zero_players(players@),
            i <= n,
            forall|a: int, b: int| 0 <= a < b < keys.len() ==> keys[a] != keys[b],
            forall|a: int| 0 <= a < keys.len() ==> #[trigger] g0.spec_tile(keys[a]) is Some,
            forall|p: TilePos| #[trigger] grid.spec_tile(p) == if keys.subrange(0, i as int).contains(p) {
                resolved_tile(g0, *conflicts, p)
            } else {
                g0.spec_tile(p)
            },
            *counts == resolution_counts(g0, *conflicts, keys.subrange(0, i as int), zeros as nat),
            awards@ == resolution_awards(g0, *conflicts, keys.subrange(0, i as int)),
            wakes@ == resolution_wakes(g0, *conflicts, *index, keys.subrange(0, i as int)),
        decreases n - i,
    {
        let p = conflicts.conflicts.key(i);
        let ghost pre = keys.subrange(0, i as int);
        let ghost post = keys.subrange(0, i + 1);
        proof {
            assert(post.drop_last() =~= pre);
            assert(post.last() == p);
            assert(!pre.contains(p)) by {
                if pre.contains(p) {
                    let a = choose|a: int| 0 <= a < pre.len() && pre[a] == p;
                    assert(keys[a] == keys[i as int]);
                }
            }
            assert(g0.spec_tile(keys[i as int]) is Some);
        }
        let votes = conflicts.conflicts.get(p);
        if votes.len() > 0 {
            let winner = find_conflict_winner(&votes);
            let t = grid.get(p).unwrap();
            let new_claim = resolve_claim(t.claim, winner);
            let idle = match t.claim {
                Some(c) => c.player == winner && c.color.max_strength(),
                None => false,
            };
            match t.claim {
                None => {
                    counts.player_gained_tiles = saturating_add_count(counts.player_gained_tiles, zeros);
                    awards.push(winner);
                },
                Some(c) => {
                    if c.player != winner && c.player == 0 && new_claim.is_none() {
                        counts.player_lost_tiles = saturating_add_count(counts.player_lost_tiles, 1);
                    }
                },
            }
            proof {
                grid.lemma_grid_facts();
            }
            grid.set_tile(p, Some(TileState { claim: new_claim, ..t }));
            if !idle {
                let mut objs = index.get(p);
                wakes.append(&mut objs);
            }
        }
        proof {
            assert forall|q: TilePos| #[trigger] grid.spec_tile(q) == if post.contains(q) {
                resolved_tile(g0, *conflicts, q)
            } else {
                g0.spec_tile(q)
            } by {
                if q != p {
                    assert(post.contains(q) == pre.contains(q)) by {
                        if post.contains(q) {
                            let a = choose|a: int| 0 <= a < post.len() && post[a] == q;
                            assert(pre[a] == q);
                        }
                        if pre.contains(q) {
                            let a = choose|a: int| 0 <= a < pre.len() && pre[a] == q;
                            assert(post[a] == q);
                        }
                    }
                } else {
                    assert(post[i as int] == q);
                }
            }
        }
        i = i + 1;
    }
    proof {
        assert(keys.subrange(0, n as int) =~= keys);
    }
    (awards, wakes)
}

/// How many times `v` occurs in `s`.
pub open spec fn count_of(s: Seq<usize>, v: usize) -> nat
    decreases s.len(),
{
    if s.len() == 0 {
        0
    } else {
        count_of(s.drop_last(), v) + if s.last() == v { 1nat } else { 0nat }
    }
}

/// After `k` possible awards, a player's points moved from `old` to `new`:
/// the building points stayed, the ability points grew by at most `k` and
/// stayed within the cap, and below 50 each award counted.
pub open spec fn awarded_within(old: PlayerRecord, new: PlayerRecord, k: nat) -> bool {
    &&& new.id == old.id
    &&& new.points.building_points == old.points.building_points
    &&& old.points.ability_points <= new.points.ability_points <= old.points.ability_points + k
    &&& new.points.ability_points <= ABILITY_POINTS_CAP
    &&& old.points.ability_points + k <= 50 ==> new.points.ability_points == old.points.ability_points + k
}

/// Gives one ability point award to every player whose id is in `awards`,
/// once per occurrence.
pub fn award_ability_points(players: &mut Vec<PlayerRecord>, awards: &Vec<usize>)
    requires
        forall|j: int| 0 <= j < old(players)@.len() ==> #[trigger] old(players)@[j].points.ability_points
            <= ABILITY_POINTS_CAP,
    ensures
        final(players)@.len() == old(players)@.len(),
        forall|j: int| 0 <= j < final(players)@.len() ==> #[trigger] awarded_within(
            old(players)@[j],
            final(players)@[j],
            count_of(awards@, old(players)@[j].id),
        ),
{
    let ghost start = players@;
    let mut a: usize = 0;
    while a < awards.len()
        invariant
            a <= awards@.len(),
            players@.len() == start.len(),
            forall|j: int| 0 <= j < players@.len() ==> #[trigger] awarded_within(
                start[j],
                players@[j],
                count_of(awards@.subrange(0, a as int), start[j].id),
            ),
        decreases awards@.len() - a,
    {
        let w = awards[a];
        let ghost mid = players@;
        let mut j: usize = 0;
        while j < players.len()
            invariant
                a < awards@.len(),
                w == awards@[a as int],
                j <= players@.len(),
                players@.len() == start.len(),
                mid.len() == start.len(),
                forall|k: int| 0 <= k < players@.len() ==> #[trigger] awarded_within(
                    start[k],
                    mid[k],
                    count_of(awards@.subrange(0, a as int), start[k].id),
                ),
                forall|k: int| j <= k < players@.len() ==> #[trigger] players@[k] == mid[k],
                forall|k: int| #![trigger players@[k]] 0 <= k < j ==> awarded_within(
                    mid[k],
                    players@[k],
                    if start[k].id == w { 1nat } else { 0nat },
                ),
            decreases players@.len() - j,
        {
            let ghost before = players@;
            proof {
                assert(awarded_within(start[j as int], mid[j as int], count_of(awards@.subrange(0, a as int), start[j as int].id)));
                assert(players@[j as int] == mid[j as int]);
            }
            if players[j].id == w {
                let mut rec = players[j];
                increase_ability_points(&mut rec.points);
                players.set(j, rec);
            }
            proof {
                assert forall|k: int| #![trigger players@[k]] 0 <= k < j + 1 implies awarded_within(
                    mid[k],
                    players@[k],
                    if start[k].id == w { 1nat } else { 0nat },
                ) by {
                    if k < j {
                        assert(players@[k] == before[k]);
                    }
                }
                assert forall|k: int| j + 1 <= k < players@.len() implies #[trigger] players@[k] == mid[k] by {
                    assert(players@[k] == before[k]);
                }
            }
            j = j + 1;
        }
        proof {
            assert(awards@.subrange(0, a + 1).drop_last() =~= awards@.subrange(0, a as int));
            assert forall|k: int| 0 <= k < players@.len() implies #[trigger] awarded_within(
                start[k],
                players@[k],
                count_of(awards@.subrange(0, a + 1), start[k].id),
            ) by {
                assert(awarded_within(start[k], mid[k], count_of(awards@.subrange(0, a as int), start[k].id)));
                assert(awarded_within(mid[k], players@[k], if start[k].id == w { 1nat } else { 0nat }));
            }
        }
        a = a + 1;
    }
    proof {
        assert(awards@.subrange(0, a as int) =~= awards@);
    }
}

/// One conflict resolution step: resolves the requests on every tile (see
/// `resolve_conflict_tiles`), gives the ability point awards, forgets the
/// requests, and returns the objects to simulate again.
pub fn handle_color_conflicts(
    conflicts: &mut ColorConflicts,
    counts: &mut PlayerTileChangedCount,
    grid: &mut TileGrid,
    players: &mut Vec<PlayerRecord>,
    index: &TileToObjectIndex,
) -> (wakes: Vec<ObjectId>)
    requires
        old(conflicts).wf(),
        old(grid).wf(),
        index.wf(),
        forall|i: int| 0 <= i < old(conflicts).conflicts.spec_keys().len()
            ==> #[trigger] old(grid).spec_tile(old(conflicts).conflicts.spec_keys()[i]) is Some,
        forall|j: int| 0 <= j < old(players)@.len() ==> #[trigger] old(players)@[j].points.ability_points
            <= ABILITY_POINTS_CAP,
    ensures
        final(grid).wf(),
        final(grid).spec_size() == old(grid).spec_size(),
        forall|p: TilePos| #[trigger] final(grid).spec_tile(p) == resolved_tile(*old(grid), *old(conflicts), p),
        *final(counts) == resolution_counts(
            *old(grid),
            *old(conflicts),
            old(conflicts).conflicts.spec_keys(),
            zero_players(old(players)@),
        ),
        wakes@ == resolution_wakes(*old(grid), *old(conflicts), *index, old(conflicts).conflicts.spec_keys()),
        final(players)@.len() == old(players)@.len(),
        forall|j: int| 0 <= j < final(players)@.len() ==> #[trigger] awarded_within(
            old(players)@[j],
            final(players)@[j],
            count_of(
                resolution_awards(*old(grid), *old(conflicts), old(conflicts).conflicts.spec_keys()),
                old(players)@[j].id,
            ),
        ),
        final(conflicts).wf(),
        forall|p: TilePos| #[trigger] final(conflicts).conflicts.spec_at(p) == Seq::<(usize, usize)>::empty(),
        final(conflicts).conflicts.spec_keys().len() == 0,
        final(conflicts).guaranteed_conflicts == old(conflicts).guaranteed_conflicts,
{
    let (awards, wakes) = resolve_conflict_tiles(conflicts, grid, counts, players, index);
    award_ability_points(players, &awards);
    conflicts.conflicts.clear();
    wakes
}

/// What the guaranteed conflicts on one tile have done so far: the claim the
/// rules see (its colour changes at once), the player a neutral tile will be
/// given to, whether the claim will be removed, and player 0's counts.
#[derive(Clone, Copy, PartialEq, Eq, Structural, Debug, Hash)]
pub struct GuaranteeState {
    pub seen: Option<TileClaim>,
    pub inserted: Option<usize>,
    pub removed: bool,
    pub gained: u32,
    pub lost: u32,
}

/// One guaranteed conflict `(caster, affects caster, affects neutral, affects
/// others, type)` applied to the state of its tile.
pub open spec fn guarantee_step(s: GuaranteeState, e: GuaranteeEntry) -> GuaranteeState {
    let (caster, affect_caster, affect_neutral, affect_others, kind) = e;
    match s.seen {
        None => if affect_neutral && kind != ConflictType::Damage {
            GuaranteeState {
                inserted: Some(caster),
                gained: if caster == 0 { sat_add(s.gained, 1) } else { s.gained },
                ..s
            }
        } else {
            s
        },
        Some(c) => if caster == c.player && affect_caster {
            if kind == ConflictType::Damage {
                let d = damaged(c.color);
                if d.tile_color_strength == TileColorStrength::Neutral {
                    GuaranteeState {
                        seen: Some(TileClaim { player: c.player, color: d }),
                        removed: true,
                        lost: sat_add(s.lost, 1),
                        ..s
                    }
                } else {
                    GuaranteeState { seen: Some(TileClaim { player: c.player, color: d }), ..s }
                }
            } else {
                GuaranteeState { seen: Some(TileClaim { player: c.player, color: strengthened(c.color) }), ..s }
            }
        } else if affect_others {
            if kind == ConflictType::Stengthen {
                GuaranteeState { seen: Some(TileClaim { player: c.player, color: strengthened(c.color) }), ..s }
            } else {
                let d = damaged(c.color);
                GuaranteeState {
                    seen: Some(TileClaim { player: c.player, color: d }),
                    removed: s.removed || d.tile_color_strength == TileColorStrength::Neutral,
                    ..s
                }
            }
        } else {
            s
        },
    }
}

/// The state after applying `entries` in order.
pub open spec fn guarantees_applied(s: GuaranteeState, entries: Seq<GuaranteeEntry>) -> GuaranteeState
    decreases entries.len(),
{
    if entries.len() == 0 {
        s
    } else {
        guarantee_step(guarantees_applied(s, entries.drop_last()), entries.last())
    }
}

/// Damage applied to a tile nobody holds changes nothing of its state.
proof fn lemma_damage_leaves_neutral_state(s: GuaranteeState, entries: Seq<GuaranteeEntry>)
    requires
        s.seen is None,
        forall|k: int| 0 <= k < entries.len() ==> (#[trigger] entries[k]).4 == ConflictType::Damage,
    ensures
        guarantees_applied(s, entries) == s,
    decreases entries.len(),
{
    if entries.len() > 0 {
        lemma_damage_leaves_neutral_state(s, entries.drop_last());
        assert(entries.last().4 == ConflictType::Damage);
    }
}

/// Guaranteed conflicts that only damage never colour a tile nobody holds:
/// such a tile comes out of them as it was.
pub proof fn lemma_damage_never_claims_neutral(g: TileGrid, entries: Seq<GuaranteeEntry>, p: TilePos)
    requires
        g.spec_tile(p) matches Some(t) && t.claim is None,
        forall|k: int| 0 <= k < entries.len() ==> (#[trigger] entries[k]).4 == ConflictType::Damage,
    ensures
        guaranteed_by(g, entries, p) == g.spec_tile(p),
{
    let t = g.spec_tile(p)->0;
    lemma_damage_leaves_neutral_state(guarantee_start(t.claim, 0, 0), entries);
}

/// The claim a tile ends with: a neutral tile goes to the last caster that
/// coloured it; a claimed tile keeps its changed colour unless a conflict
/// freed it.
pub open spec fn guarantee_claim(initial: Option<TileClaim>, s: GuaranteeState) -> Option<TileClaim> {
    match initial {
        None => match s.inserted {
            Some(p) => Some(TileClaim { player: p, color: TileColor { tile_color_strength: TileColorStrength::One } }),
            None => None,
        },
        Some(_) => if s.removed {
            None
        } else {
            s.seen
        },
    }
}

/// The state of a tile before its guaranteed conflicts, carrying the counts.
pub open spec fn guarantee_start(claim: Option<TileClaim>, gained: u32, lost: u32) -> GuaranteeState {
    GuaranteeState { seen: claim, inserted: None, removed: false, gained, lost }
}

/// The counts after resolving the guaranteed conflicts of the tiles `keys`.
pub open spec fn guarantee_counts(g: TileGrid, cc: ColorConflicts, keys: Seq<TilePos>) -> PlayerTileChangedCount
    decreases keys.len(),
{
    if keys.len() == 0 {
        PlayerTileChangedCount { player_gained_tiles: 0, player_lost_tiles: 0 }
    } else {
        let prev = guarantee_counts(g, cc, keys.drop_last());
        let p = keys.last();
        let s = guarantees_applied(
            guarantee_start(tile_claim(g, p), prev.player_gained_tiles, prev.player_lost_tiles),
            cc.guaranteed_conflicts.spec_at(p),
        );
        PlayerTileChangedCount { player_gained_tiles: s.gained, player_lost_tiles: s.lost }
    }
}

/// The tile at `p` after its guaranteed conflicts are resolved.
pub open spec fn guaranteed_tile(g: TileGrid, cc: ColorConflicts, p: TilePos) -> Option<TileState> {
    guaranteed_by(g, cc.guaranteed_conflicts.spec_at(p), p)
}

/// The tile at `p` once the guaranteed conflicts `entries` for it are
/// applied in order.
pub open spec fn guaranteed_by(g: TileGrid, entries: Seq<GuaranteeEntry>, p: TilePos) -> Option<TileState> {
    match g.spec_tile(p) {
        Some(t) => {
            let s = guarantees_applied(guarantee_start(t.claim, 0, 0), entries);
            Some(TileState { claim: guarantee_claim(t.claim, s), ..t })
        },
        None => None,
    }
}

/// `s` repeated `n` times.
pub open spec fn repeat_seq(s: Seq<ObjectId>, n: nat) -> Seq<ObjectId>
    decreases n,
{
    if n == 0 {
        Seq::empty()
    } else {
        repeat_seq(s, (n - 1) as nat) + s
    }
}

/// The objects to simulate again: for each guaranteed conflict of each tile,
/// the objects that affect that tile.
pub open spec fn guarantee_wakes(cc: ColorConflicts, index: TileToObjectIndex, keys: Seq<TilePos>) -> Seq<ObjectId>
    decreases keys.len(),
{
    if keys.len() == 0 {
        Seq::empty()
    } else {
        let p = keys.last();
        guarantee_wakes(cc, index, keys.drop_last()) + repeat_seq(
            index.spec_at(p),
            cc.guaranteed_conflicts.spec_at(p).len(),
        )
    }
}

fn apply_guarantee(s: GuaranteeState, e: GuaranteeEntry) -> (r: GuaranteeState)
    ensures
        r == guarantee_step(s, e),
{
    let (caster, affect_caster, affect_neutral, affect_others, kind) = e;
    match s.seen {
        None => {
            if affect_neutral && kind != ConflictType::Damage {
                let gained = if caster == 0 { s.gained.saturating_add(1) } else { s.gained };
                GuaranteeState { inserted: Some(caster), gained, ..s }
            } else {
                s
            }
        },
        Some(c) => {
            let mut color = c.color;
            if caster == c.player && affect_caster {
                if kind == ConflictType::Damage {
                    color.damage();
                    if color.tile_color_strength == TileColorStrength::Neutral {
                        GuaranteeState {
                            seen: Some(TileClaim { player: c.player, color }),
                            removed: true,
                            lost: s.lost.saturating_add(1),
                            ..s
                        }
                    } else {
                        GuaranteeState { seen: Some(TileClaim { player: c.player, color }), ..s }
                    }
                } else {
                    color.strengthen();
                    GuaranteeState { seen: Some(TileClaim { player: c.player, color }), ..s }
                }
            } else if affect_others {
                if kind == ConflictType::Stengthen {
                    color.strengthen();
                    GuaranteeState { seen: Some(TileClaim { player: c.player, color }), ..s }
                } else {
                    color.damage();
                    let freed = color.tile_color_strength == TileColorStrength::Neutral;
                    GuaranteeState { seen: Some(TileClaim { player: c.player, color }), removed: s.removed || freed, ..s }
                }
            } else {
                s
            }
        },
    }
}

/// Applying the conflicts of a tile changes only the counts when started from
/// other counts: the claim, insertion and removal come out the same.
proof fn lemma_guarantees_counts_apart(claim: Option<TileClaim>, g1: u32, l1: u32, g2: u32, l2: u32, entries: Seq<GuaranteeEntry>)
    ensures
        guarantees_applied(guarantee_start(claim, g1, l1), entries).seen == guarantees_applied(guarantee_start(claim, g2, l2), entries).seen,
        guarantees_applied(guarantee_start(claim, g1, l1), entries).inserted == guarantees_applied(guarantee_start(claim, g2, l2), entries).inserted,
        guarantees_applied(guarantee_start(claim, g1, l1), entries).removed == guarantees_applied(guarantee_start(claim, g2, l2), entries).removed,
    decreases entries.len(),
{
    if entries.len() > 0 {
        lemma_guarantees_counts_apart(claim, g1, l1, g2, l2, entries.drop_last());
    }
}

/// Resolves the guaranteed conflicts registered on each tile, in the order
/// the tiles were first given one (see `guarantee_step`), forgets them, and
/// returns the objects to simulate again. The counts are reset first.
pub fn handle_color_conflict_guarantees(
    conflicts: &mut ColorConflicts,
    counts: &mut PlayerTileChangedCount,
    grid: &mut TileGrid,
    index: &TileToObjectIndex,
) -> (wakes: Vec<ObjectId>)
    requires
        old(conflicts).wf(),
        old(grid).wf(),
        index.wf(),
        forall|i: int| 0 <= i < old(conflicts).guaranteed_conflicts.spec_keys().len()
            ==> #[trigger] old(grid).spec_tile(old(conflicts).guaranteed_conflicts.spec_keys()[i]) is Some,
    ensures
        final(grid).wf(),
        final(grid).spec_size() == old(grid).spec_size(),
        forall|p: TilePos| #[trigger] final(grid).spec_tile(p) == guaranteed_tile(*old(grid), *old(conflicts), p),
        *final(counts) == guarantee_counts(*old(grid), *old(conflicts), old(conflicts).guaranteed_conflicts.spec_keys()),
        wakes@ == guarantee_wakes(*old(conflicts), *index, old(conflicts).guaranteed_conflicts.spec_keys()),
        final(conflicts).wf(),
        forall|p: TilePos| #[trigger] final(conflicts).guaranteed_conflicts.spec_at(p) == Seq::<GuaranteeEntry>::empty(),
        final(conflicts).guaranteed_conflicts.spec_keys().len() == 0,
        final(conflicts).conflicts == old(conflicts).conflicts,
{
    let ghost g0 = *grid;
    let ghost cc = *conflicts;
    let ghost keys = conflicts.guaranteed_conflicts.spec_keys();
    counts.player_gained_tiles = 0;
    counts.player_lost_tiles = 0;
    let mut wakes: Vec<ObjectId> = Vec::new();
    proof {
        conflicts.guaranteed_conflicts.lemma_keys();
        assert(keys.subrange(0, 0) =~= Seq::<TilePos>::empty());
    }
    let n = conflicts.guaranteed_conflicts.len();
    let mut i: usize = 0;
    while i < n
        invariant
            *conflicts == cc,
            cc.wf(),
            index.wf(),
            grid.wf(),
            grid.spec_size() == g0.spec_size(),
            n == keys.len(),
            keys == cc.guaranteed_conflicts.spec_keys(),
            i <= n,
            forall|a: int, b: int| 0 <= a < b < keys.len() ==> keys[a] != keys[b],
            forall|a: int| 0 <= a < keys.len() ==> #[trigger] g0.spec_tile(keys[a]) is Some,
            forall|p: TilePos| #[trigger] grid.spec_tile(p) == if keys.subrange(0, i as int).contains(p) {
                guaranteed_tile(g0, cc, p)
            } else {
                g0.spec_tile(p)
            },
            *counts == guarantee_counts(g0, cc, keys.subrange(0, i as int)),
            wakes@ == guarantee_wakes(cc, *index, keys.subrange(0, i as int)),
        decreases n - i,
    {
        let p = conflicts.guaranteed_conflicts.key(i);
        let ghost pre = keys.subrange(0, i as int);
        let ghost post = keys.subrange(0, i + 1);
        proof {
            assert(post.drop_last() =~= pre);
            assert(post.last() == p);
            assert(!pre.contains(p)) by {
                if pre.contains(p) {
                    let a = choose|a: int| 0 <= a < pre.len() && pre[a] == p;
                    assert(keys[a] == keys[i as int]);
                }
            }
            assert(g0.spec_tile(keys[i as int]) is Some);
        }
        let entries = conflicts.guaranteed_conflicts.get(p);
        let t = grid.get(p).unwrap();
        let objs = index.get(p);
        let ghost wakes_before = wakes@;
        let mut state = GuaranteeState {
            seen: t.claim,
            inserted: None,
            removed: false,
            gained: counts.player_gained_tiles,
            lost: counts.player_lost_tiles,
        };
        let mut k: usize = 0;
        while k < entries.len()
            invariant
                k <= entries@.len(),
                state == guarantees_applied(
                    guarantee_start(t.claim, counts.player_gained_tiles, counts.player_lost_tiles),
                    entries@.subrange(0, k as int),
                ),
                wakes@ == wakes_before + repeat_seq(objs@, k as nat),
            decreases entries@.len() - k,
        {
            state = apply_guarantee(state, entries[k]);
            let mut more = Vec::new();
            let mut m: usize = 0;
            while m < objs.len()
                invariant
                    m <= objs@.len(),
                    more@ == objs@.subrange(0, m as int),
                decreases objs@.len() - m,
            {
                more.push(objs[m]);
                m = m + 1;
                assert(more@ =~= objs@.subrange(0, m as int));
            }
            assert(more@ =~= objs@);
            wakes.append(&mut more);
            proof {
                assert(entries@.subrange(0, k + 1).drop_last() =~= entries@.subrange(0, k as int));
                assert(wakes@ =~= wakes_before + repeat_seq(objs@, (k + 1) as nat));
            }
            k = k + 1;
        }
        proof {
            assert(entries@.subrange(0, k as int) =~= entries@);
            lemma_guarantees_counts_apart(t.claim, counts.player_gained_tiles, counts.player_lost_tiles, 0, 0, entries@);
        }
        let new_claim = match t.claim {
            None => match state.inserted {
                Some(who) => Some(TileClaim { player: who, color: TileColor { tile_color_strength: TileColorStrength::One } }),
                None => None,
            },
            Some(_) => if state.removed {
                None
            } else {
                state.seen
            },
        };
        counts.player_gained_tiles = state.gained;
        counts.player_lost_tiles = state.lost;
        proof {
            grid.lemma_grid_facts();
        }
        grid.set_tile(p, Some(TileState { claim: new_claim, ..t }));
        proof {
            assert forall|q: TilePos| #[trigger] grid.spec_tile(q) == if post.contains(q) {
                guaranteed_tile(g0, cc, q)
            } else {
                g0.spec_tile(q)
            } by {
                if q != p {
                    assert(post.contains(q) == pre.contains(q)) by {
                        if post.contains(q) {
                            let a = choose|a: int| 0 <= a < post.len() && post[a] == q;
                            assert(pre[a] == q);
                        }
                        if pre.contains(q) {
                            let a = choose|a: int| 0 <= a < pre.len() && pre[a] == q;
                            assert(post[a] == q);
                        }
                    }
                } else {
                    assert(post[i as int] == q);
                }
            }
        }
        i = i + 1;
    }
    proof {
        assert(keys.subrange(0, n as int) =~= keys);
    }
    conflicts.guaranteed_conflicts.clear();
    wakes
}

} // verus!
