//! Deciding when a game ends and who won.

use vstd::prelude::*;
use crate::grid::{TileGrid, TileState};

verus! {

broadcast use vstd::seq_lib::group_seq_properties;

/// How a game is won.
#[derive(Clone, Copy, PartialEq, Eq, Structural, Debug, Hash)]
pub enum GameEndConditions {
    /// Win by being the last player holding tiles.
    Domination,
    /// Win by holding at least `target_percentage` percent of the map's tiles.
    Percentage { target_percentage: u32 },
}

/// The end of a game: whether player 0 won, and who won.
#[derive(Clone, Copy, PartialEq, Eq, Structural, Debug, Hash)]
pub struct GameEnded {
    pub player_won: bool,
    pub winning_id: usize,
}

/// The players holding the claimed cells of `cells`, in cell order.
pub open spec fn cell_owners(cells: Seq<Option<TileState>>) -> Seq<usize>
    decreases cells.len(),
{
    if cells.len() == 0 {
        Seq::empty()
    } else {
        let prev = cell_owners(cells.drop_last());
        match cells.last() {
            Some(t) => match t.claim {
                Some(c) => prev.push(c.player),
                None => prev,
            },
            None => prev,
        }
    }
}

/// The position of the first entry for player `x` in a tally.
pub open spec fn tally_index(t: Seq<(usize, nat)>, x: usize) -> Option<int>
    decreases t.len(),
{
    if t.len() == 0 {
        None
    } else {
        match tally_index(t.drop_last(), x) {
            Some(i) => Some(i),
            None => if t.last().0 == x {
                Some(t.len() - 1)
            } else {
                None
            },
        }
    }
}

/// One more tile for player `x`.
pub open spec fn tally_add(t: Seq<(usize, nat)>, x: usize) -> Seq<(usize, nat)> {
    match tally_index(t, x) {
        Some(i) => t.update(i, (x, t[i].1 + 1)),
        None => t.push((x, 1nat)),
    }
}

/// Each player of `owners` with their number of tiles, in the order the
/// players first appear.
pub open spec fn tally_of(owners: Seq<usize>) -> Seq<(usize, nat)>
    decreases owners.len(),
{
    if owners.len() == 0 {
        Seq::empty()
    } else {
        tally_add(tally_of(owners.drop_last()), owners.last())
    }
}

/// How many times `x` occurs in `s`.
pub open spec fn count_in(s: Seq<usize>, x: usize) -> nat
    decreases s.len(),
{
    if s.len() == 0 {
        0
    } else {
        count_in(s.drop_last(), x) + if s.last() == x { 1nat } else { 0nat }
    }
}

/// The index of the first entry among the first `n` with the most tiles.
pub open spec fn tally_best(t: Seq<(usize, nat)>, n: nat) -> int
    decreases n,
{
    if n <= 1 {
        0
    } else {
        let k = tally_best(t, (n - 1) as nat);
        if t[n - 1].1 > t[k].1 {
            n - 1
        } else {
            k
        }
    }
}

/// The first entry, in tally order, that holds at least `target` percent of
/// `tile_count` tiles.
pub open spec fn first_over(t: Seq<(usize, nat)>, target: nat, tile_count: nat, n: nat) -> Option<int>
    decreases n,
{
    if n == 0 {
        None
    } else {
        match first_over(t, target, tile_count, (n - 1) as nat) {
            Some(i) => Some(i),
            None => if t[n - 1].1 * 100 >= target * tile_count {
                Some(n - 1)
            } else {
                None
            },
        }
    }
}

/// No player but player 0 holds a tile.
pub open spec fn only_zero(t: Seq<(usize, nat)>) -> bool {
    forall|i: int| 0 <= i < t.len() ==> #[trigger] t[i].0 == 0
}

/// The end of the game given each player's tiles (`t`, a tally), the
/// condition, and the number of tiles of the map. When player 0 holds no
/// tile the player with the most tiles (the earliest on a tie; 0 when nobody
/// holds any) has won; by domination player 0 wins once no one else holds a
/// tile; by percentage the first player at or above the target wins, and
/// otherwise player 0 wins once no one else holds a tile.
pub open spec fn game_end_result(t: Seq<(usize, nat)>, cond: GameEndConditions, tile_count: nat) -> Option<GameEnded> {
    let base = if tally_index(t, 0) is Some {
        None
    } else {
        Some(GameEnded { player_won: false, winning_id: if t.len() == 0 { 0 } else { t[tally_best(t, t.len())].0 } })
    };
    let zero_wins = Some(GameEnded { player_won: true, winning_id: 0 });
    match cond {
        GameEndConditions::Domination => if only_zero(t) { zero_wins } else { base },
        GameEndConditions::Percentage { target_percentage } => match first_over(t, target_percentage as nat, tile_count, t.len()) {
            Some(i) => Some(GameEnded { player_won: t[i].0 == 0, winning_id: t[i].0 }),
            None => if only_zero(t) { zero_wins } else { base },
        },
    }
}

/// The entry `first_over` finds is one of the first `n`.
proof fn lemma_first_over_in_range(t: Seq<(usize, nat)>, target: nat, tile_count: nat, n: nat)
    ensures
        first_over(t, target, tile_count, n) matches Some(i) ==> 0 <= i < n,
    decreases n,
{
    if n > 0 {
        lemma_first_over_in_range(t, target, tile_count, (n - 1) as nat);
    }
}

/// Whatever the condition, once player 0 holds no tile while another player
/// still holds one, the game has ended and player 0 has lost.
pub proof fn lemma_eliminated_player_loses(owners: Seq<usize>, cond: GameEndConditions, tile_count: nat)
    requires
        count_in(owners, 0) == 0,
        owners.len() > 0,
    ensures
        game_end_result(tally_of(owners), cond, tile_count) matches Some(r) && !r.player_won,
{
    let t = tally_of(owners);
    let x = owners.last();
    assert(count_in(owners, x) > 0);
    assert(x != 0);
    lemma_tally_counts(owners);
    lemma_tally_index(t, x);
    lemma_tally_index(t, 0);
    let i = tally_index(t, x)->0;
    assert(t[i].0 == x);
    assert(!only_zero(t));
    assert(tally_index(t, 0) is None);
    if let GameEndConditions::Percentage { target_percentage } = cond {
        lemma_first_over_in_range(t, target_percentage as nat, tile_count, t.len());
    }
}

/// The tally lists each owner once, with their number of tiles, in order of
/// first appearance.
pub proof fn lemma_tally_counts(owners: Seq<usize>)
    ensures
        forall|i: int| 0 <= i < tally_of(owners).len() ==> #[trigger] tally_of(owners)[i].1 == count_in(
            owners,
            tally_of(owners)[i].0,
        ),
        forall|i: int, j: int| 0 <= i < j < tally_of(owners).len() ==> tally_of(owners)[i].0 != tally_of(owners)[j].0,
        forall|x: usize| #[trigger] tally_index(tally_of(owners), x) is Some <==> count_in(owners, x) > 0,
    decreases owners.len(),
{
    if owners.len() > 0 {
        let prev = owners.drop_last();
        let x = owners.last();
        let tp = tally_of(prev);
        let t = tally_of(owners);
        lemma_tally_counts(prev);
        lemma_tally_index(tp, x);
        assert(t == tally_add(tp, x));
        match tally_index(tp, x) {
            Some(k) => {
                assert(t =~= tp.update(k, (x, tp[k].1 + 1)));
                assert forall|i: int| 0 <= i < t.len() implies #[trigger] t[i].1 == count_in(owners, t[i].0) by {
                    assert(tp[i].1 == count_in(prev, tp[i].0));
                }
                assert forall|y: usize| #[trigger] tally_index(t, y) is Some <==> count_in(owners, y) > 0 by {
                    lemma_tally_index(t, y);
                    lemma_tally_index(tp, y);
                    if tally_index(tp, y) is Some {
                        let j = tally_index(tp, y)->0;
                        assert(t[j].0 == y);
                    }
                    if tally_index(t, y) is Some {
                        let j = tally_index(t, y)->0;
                        assert(tp[j].0 == y);
                    }
                }
            },
            None => {
                assert(count_in(prev, x) == 0) by {
                    if count_in(prev, x) > 0 {
                        assert(tally_index(tp, x) is Some);
                    }
                }
                assert(t =~= tp.push((x, 1nat)));
                assert forall|i: int| 0 <= i < t.len() implies #[trigger] t[i].1 == count_in(owners, t[i].0) by {
                    if i < tp.len() {
                        assert(tp[i].1 == count_in(prev, tp[i].0));
                        assert(tp[i].0 != x);
                    }
                }
                assert forall|y: usize| #[trigger] tally_index(t, y) is Some <==> count_in(owners, y) > 0 by {
                    lemma_tally_index(t, y);
                    lemma_tally_index(tp, y);
                    if tally_index(tp, y) is Some {
                        let j = tally_index(tp, y)->0;
                        assert(t[j].0 == y);
                    }
                    if tally_index(t, y) is Some {
                        let j = tally_index(t, y)->0;
                        if j < tp.len() {
                            assert(tp[j].0 == y);
                        }
                    }
                    if y == x {
                        assert(t[t.len() - 1].0 == y);
                    }
                }
            },
        }
    }
}

/// `tally_index` finds the first entry for `x`, and none when there is none.
pub proof fn lemma_tally_index(t: Seq<(usize, nat)>, x: usize)
    ensures
        match tally_index(t, x) {
            Some(i) => 0 <= i < t.len() && t[i].0 == x && forall|j: int| 0 <= j < i ==> #[trigger] t[j].0 != x,
            None => forall|j: int| 0 <= j < t.len() ==> #[trigger] t[j].0 != x,
        },
    decreases t.len(),
{
    if t.len() > 0 {
        let d = t.drop_last();
        lemma_tally_index(d, x);
        assert forall|j: int| 0 <= j < d.len() implies t[j] == #[trigger] d[j] by {}
        match tally_index(d, x) {
            Some(i) => {
                assert(tally_index(t, x) == Some(i));
                assert(t[i] == d[i]);
                assert forall|j: int| 0 <= j < i implies #[trigger] t[j].0 != x by {
                    assert(t[j] == d[j]);
                }
            },
            None => {
                assert forall|j: int| 0 <= j < d.len() implies #[trigger] t[j].0 != x by {
                    assert(t[j] == d[j]);
                }
                if t.last().0 == x {
                    assert(tally_index(t, x) == Some(t.len() - 1));
                } else {
                    assert(tally_index(t, x) is None);
                }
            },
        }
    }
}

/// A tally with machine counts, seen with mathematical counts.
pub open spec fn tally_view(v: Seq<(usize, usize)>) -> Seq<(usize, nat)> {
    v.map_values(|e: (usize, usize)| (e.0, e.1 as nat))
}

/// The players holding the claimed tiles of the map, in cell order.
pub fn tile_owners(grid: &TileGrid) -> (owners: Vec<usize>)
    requires
        grid.wf(),
    ensures
        owners@ == cell_owners(grid.spec_cells()),
{
    let n = grid.cell_count();
    let mut owners: Vec<usize> = Vec::new();
    let mut i: usize = 0;
    proof {
        grid.lemma_cells();
    }
    while i < n
        invariant
            grid.wf(),
            n == grid.spec_cells().len(),
            n == grid.spec_cell_count(),
            i <= n,
            owners@ == cell_owners(grid.spec_cells().subrange(0, i as int)),
        decreases n - i,
    {
        proof {
            assert(grid.spec_cells().subrange(0, i + 1).drop_last() =~= grid.spec_cells().subrange(0, i as int));
        }
        if let Some(t) = grid.cell(i) {
            if let Some(c) = t.claim {
                owners.push(c.player);
            }
        }
        i = i + 1;
    }
    proof {
        assert(grid.spec_cells().subrange(0, i as int) =~= grid.spec_cells());
    }
    owners
}

/// Each player of `owners` with their number of tiles, in the order the
/// players first appear.
pub fn tally_owners(owners: &Vec<usize>) -> (t: Vec<(usize, usize)>)
    ensures
        tally_view(t@) == tally_of(owners@),
{
    let mut t: Vec<(usize, usize)> = Vec::new();
    let mut k: usize = 0;
    while k < owners.len()
        invariant
            k <= owners@.len(),
            tally_view(t@) == tally_of(owners@.subrange(0, k as int)),
            forall|i: int| 0 <= i < t@.len() ==> #[trigger] t@[i].1 <= k,
        decreases owners@.len() - k,
    {
        let x = owners[k];
        let ghost tv = tally_view(t@);
        proof {
            assert(owners@.subrange(0, k + 1).drop_last() =~= owners@.subrange(0, k as int));
            lemma_tally_index(tv, x);
        }
        let mut j: usize = 0;
        while j < t.len() && t[j].0 != x
            invariant
                j <= t@.len(),
                tv == tally_view(t@),
                forall|a: int| 0 <= a < j ==> #[trigger] t@[a].0 != x,
            decreases t@.len() - j,
        {
            j = j + 1;
        }
        let found: Option<usize> = if j < t.len() { Some(j) } else { None };
        proof {
            assert forall|a: int| 0 <= a < t@.len() implies #[trigger] tv[a].0 == t@[a].0 by {}
        }
        match found {
            Some(j) => {
                proof {
                    assert(tally_index(tv, x) == Some(j as int)) by {
                        if tally_index(tv, x) != Some(j as int) {
                            let i = tally_index(tv, x)->0;
                            assert(tv[i].0 == x);
                        }
                    }
                }
                let c = t[j].1;
                t.set(j, (x, c + 1));
                proof {
                    assert(tally_view(t@) =~= tv.update(j as int, (x, tv[j as int].1 + 1)));
                }
            },
            None => {
                proof {
                    assert(tally_index(tv, x) is None) by {
                        if tally_index(tv, x) is Some {
                            let i = tally_index(tv, x)->0;
                            assert(t@[i].0 == x);
                        }
                    }
                }
                t.push((x, 1));
                proof {
                    assert(tally_view(t@) =~= tv.push((x, 1nat)));
                }
            },
        }
        k = k + 1;
    }
    proof {
        assert(owners@.subrange(0, k as int) =~= owners@);
    }
    t
}

/// Decides whether the game has ended, and who won, from the tiles each
/// player holds (see `game_end_result`). `map_size` is the side of the square
/// map the settings asked for.
pub fn update_game_end_state(grid: &TileGrid, conditions: GameEndConditions, map_size: u32) -> (r: Option<GameEnded>)
    requires
        grid.wf(),
        map_size * map_size <= u32::MAX,
    ensures
        r == game_end_result(tally_of(cell_owners(grid.spec_cells())), conditions, (map_size * map_size) as nat),
{
    let owners = tile_owners(grid);
    let t = tally_owners(&owners);
    let ghost tv = tally_view(t@);
    let tile_count: u32 = map_size * map_size;
    let mut zero_alive = false;
    let mut only_zero_tiles = true;
    let mut best: usize = 0;
    let mut i: usize = 0;
    while i < t.len()
        invariant
            tv == tally_view(t@),
            i <= t@.len(),
            zero_alive == (tally_index(tv.subrange(0, i as int), 0) is Some),
            only_zero_tiles == (forall|a: int| 0 <= a < i ==> #[trigger] tv[a].0 == 0),
            i > 0 ==> best as int == tally_best(tv, i as nat),
            i > 0 ==> best < i,
        decreases t@.len() - i,
    {
        proof {
            assert(tv.subrange(0, i + 1).drop_last() =~= tv.subrange(0, i as int));
            assert(tv[i as int].0 == t@[i as int].0 && tv[i as int].1 == t@[i as int].1);
            if i > 0 {
                assert(tv[best as int].1 == t@[best as int].1);
            }
        }
        if t[i].0 == 0 {
            zero_alive = true;
        } else {
            only_zero_tiles = false;
        }
        if i == 0 || t[i].1 > t[best].1 {
            best = i;
        }
        i = i + 1;
    }
    proof {
        assert(tv.subrange(0, i as int) =~= tv);
        assert(only_zero_tiles == only_zero(tv));
    }
    let base = if zero_alive {
        None
    } else {
        Some(GameEnded { player_won: false, winning_id: if t.len() == 0 { 0 } else { t[best].0 } })
    };
    match conditions {
        GameEndConditions::Domination => {
            if only_zero_tiles {
                Some(GameEnded { player_won: true, winning_id: 0 })
            } else {
                base
            }
        },
        GameEndConditions::Percentage { target_percentage } => {
            let mut j: usize = 0;
            while j < t.len()
                invariant
                    tv == tally_view(t@),
                    tv == tally_of(cell_owners(grid.spec_cells())),
                    tile_count == map_size * map_size,
                    conditions == (GameEndConditions::Percentage { target_percentage }),
                    j <= t@.len(),
                    first_over(tv, target_percentage as nat, tile_count as nat, j as nat) is None,
                decreases t@.len() - j,
            {
                proof {
                    assert(tv[j as int].0 == t@[j as int].0 && tv[j as int].1 == t@[j as int].1);
                }
                proof {
                    assert((target_percentage as int) * (tile_count as int) <= 0xffff_ffff * 0xffff_ffff) by (nonlinear_arith)
                        requires
                            target_percentage <= 0xffff_ffff,
                            tile_count <= 0xffff_ffff,
                    ;
                }
                if (t[j].1 as u128) * 100 >= (target_percentage as u128) * (tile_count as u128) {
                    proof {
                        lemma_first_over_extends(tv, target_percentage as nat, tile_count as nat, (j + 1) as nat, tv.len());
                    }
                    return Some(GameEnded { player_won: t[j].0 == 0, winning_id: t[j].0 });
                }
                j = j + 1;
            }
            if only_zero_tiles {
                Some(GameEnded { player_won: true, winning_id: 0 })
            } else {
                base
            }
        },
    }
}

proof fn lemma_first_over_extends(t: Seq<(usize, nat)>, target: nat, tile_count: nat, n: nat, m: nat)
    requires
        n <= m,
        first_over(t, target, tile_count, n) is Some,
    ensures
        first_over(t, target, tile_count, m) == first_over(t, target, tile_count, n),
    decreases m,
{
    if n < m {
        lemma_first_over_extends(t, target, tile_count, n, (m - 1) as nat);
    }
}

} // verus!
