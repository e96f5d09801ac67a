//! The reach of buildings and abilities: the tiles they can affect, found by
//! walking outward from the tile they stand on, and the order in which each
//! building keeps them.

use vstd::prelude::*;
use crate::grid::{
    get_neighbors_tilepos, in_bounds, spec_neighbors, spec_step, step, Side, TileGrid, TilePos,
    TileType,
};

verus! {

broadcast use vstd::seq_lib::group_seq_properties;

/// A reach can pass through a tile that exists and can be coloured.
pub open spec fn passable(g: TileGrid, p: TilePos) -> bool {
    match g.spec_tile(p) {
        Some(t) => t.tile_type == TileType::Colorable,
        None => false,
    }
}

/// The passable tiles next to some tile of `prev`.
pub open spec fn ring(g: TileGrid, prev: Set<TilePos>) -> Set<TilePos> {
    Set::new(
        |n: TilePos|
            passable(g, n) && exists|p: TilePos|
                #[trigger] prev.contains(p) && spec_neighbors(p, g.spec_size()).contains(n),
    )
}

/// The tiles at most `k` steps from `start`, each step onto a passable
/// neighbour.
pub open spec fn reach(g: TileGrid, start: TilePos, k: nat) -> Set<TilePos>
    decreases k,
{
    if k == 0 {
        Set::empty().insert(start)
    } else {
        reach(g, start, (k - 1) as nat).union(ring(g, reach(g, start, (k - 1) as nat)))
    }
}

/// `p` is exactly `c` steps away: reached in `c` steps and not in fewer.
pub open spec fn first_reached(g: TileGrid, start: TilePos, p: TilePos, c: nat) -> bool {
    reach(g, start, c).contains(p) && (c == 0 || !reach(g, start, (c - 1) as nat).contains(p))
}

/// `out` lists every tile of the reach of the given strength exactly once,
/// each with its distance, nearest first.
pub open spec fn is_reach_listing(
    g: TileGrid,
    start: TilePos,
    strength: nat,
    out: Seq<(TilePos, u32)>,
) -> bool {
    &&& forall|i: int|
        0 <= i < out.len() ==> #[trigger] first_reached(g, start, out[i].0, out[i].1 as nat)
            && out[i].1 <= strength
    &&& forall|p: TilePos|
        reach(g, start, strength).contains(p) ==> exists|i: int|
            0 <= i < out.len() && #[trigger] out[i].0 == p
    &&& forall|i: int, j: int|
        0 <= i < j < out.len() ==> out[i].0 != out[j].0 && out[i].1 <= out[j].1
}

/// A reach only grows with more steps.
pub proof fn lemma_reach_monotone(g: TileGrid, start: TilePos, j: nat, k: nat)
    requires
        j <= k,
    ensures
        reach(g, start, j).subset_of(reach(g, start, k)),
    decreases k,
{
    if j < k {
        lemma_reach_monotone(g, start, j, (k - 1) as nat);
    }
}

/// Once a step adds nothing, no later step does.
pub proof fn lemma_reach_stable(g: TileGrid, start: TilePos, k: nat, m: nat)
    requires
        k >= 1,
        reach(g, start, k) == reach(g, start, (k - 1) as nat),
        k <= m,
    ensures
        reach(g, start, m) == reach(g, start, k),
    decreases m,
{
    if m > k {
        lemma_reach_stable(g, start, k, (m - 1) as nat);
        assert(reach(g, start, m) =~= reach(g, start, k));
    }
}

/// Every tile of a reach from a tile inside the map lies inside the map.
pub proof fn lemma_reach_in_bounds(g: TileGrid, start: TilePos, k: nat, p: TilePos)
    requires
        g.wf(),
        in_bounds(start, g.spec_size()),
        reach(g, start, k).contains(p),
    ensures
        in_bounds(p, g.spec_size()),
    decreases k,
{
    g.lemma_grid_facts();
    if k > 0 && !reach(g, start, (k - 1) as nat).contains(p) {
        assert(passable(g, p));
        assert(g.spec_tile(p) is Some);
    } else if k > 0 {
        lemma_reach_in_bounds(g, start, (k - 1) as nat, p);
    }
}

/// Every tile of a reach is the starting tile or a tile it can pass.
pub proof fn lemma_reach_passable(g: TileGrid, start: TilePos, k: nat, p: TilePos)
    requires
        reach(g, start, k).contains(p),
    ensures
        p == start || passable(g, p),
    decreases k,
{
    if k > 0 && reach(g, start, (k - 1) as nat).contains(p) {
        lemma_reach_passable(g, start, (k - 1) as nat, p);
    }
}

/// When the starting tile is a tile of the map, so is every tile a reach
/// listing lists.
pub proof fn lemma_listing_on_tiles(g: TileGrid, start: TilePos, strength: nat, out: Seq<(TilePos, u32)>)
    requires
        is_reach_listing(g, start, strength, out),
        g.spec_tile(start) is Some,
    ensures
        forall|i: int| 0 <= i < out.len() ==> (#[trigger] g.spec_tile(out[i].0)) is Some,
{
    assert forall|i: int| 0 <= i < out.len() implies (#[trigger] g.spec_tile(out[i].0)) is Some by {
        assert(first_reached(g, start, out[i].0, out[i].1 as nat));
        lemma_reach_passable(g, start, out[i].1 as nat, out[i].0);
    }
}

/// A tile first reached at step `k + 1` lies next to a tile first reached at
/// step `k`.
proof fn lemma_ring_from_frontier(g: TileGrid, start: TilePos, k: nat, n: TilePos)
    requires
        reach(g, start, k + 1).contains(n),
        !reach(g, start, k).contains(n),
    ensures
        passable(g, n),
        exists|p: TilePos|
            #[trigger] first_reached(g, start, p, k) && spec_neighbors(p, g.spec_size()).contains(n),
{
    let prev = reach(g, start, k);
    assert(ring(g, prev).contains(n));
    let p = choose|p: TilePos| #[trigger] prev.contains(p) && spec_neighbors(p, g.spec_size()).contains(n);
    if k > 0 && reach(g, start, (k - 1) as nat).contains(p) {
        assert(ring(g, reach(g, start, (k - 1) as nat)).contains(n));
        assert(false);
    }
    assert(first_reached(g, start, p, k));
}

spec fn visited_matches(g: TileGrid, visited: Seq<bool>, s: Set<TilePos>) -> bool {
    forall|r: TilePos| in_bounds(r, g.spec_size()) ==> (visited[#[trigger] g.spec_index(r)] <==> s.contains(r))
}

spec fn listing_ok(
    g: TileGrid,
    start: TilePos,
    out: Seq<(TilePos, u32)>,
    covered: Set<TilePos>,
    max_cost: nat,
) -> bool {
    &&& out.len() > 0 && out[0] == (start, 0u32)
    &&& forall|a: int|
        0 <= a < out.len() ==> #[trigger] first_reached(g, start, out[a].0, out[a].1 as nat)
            && out[a].1 <= max_cost && covered.contains(out[a].0)
    &&& forall|p: TilePos| covered.contains(p) ==> exists|a: int| 0 <= a < out.len() && #[trigger] out[a].0 == p
    &&& forall|a: int, b: int| 0 <= a < b < out.len() ==> out[a].0 != out[b].0 && out[a].1 <= out[b].1
}

/// Takes one more step from the tiles first reached at step `level`: marks and
/// lists the tiles first reached at step `level + 1` and returns them.
#[verifier::spinoff_prover]
fn expand_frontier(
    grid: &TileGrid,
    start: TilePos,
    level: u32,
    frontier: &Vec<TilePos>,
    visited: &mut Vec<bool>,
    out: &mut Vec<(TilePos, u32)>,
) -> (next: Vec<TilePos>)
    requires
        grid.wf(),
        in_bounds(start, grid.spec_size()),
        level < u32::MAX,
        old(visited)@.len() == grid.spec_cell_count(),
        forall|p: TilePos| #[trigger] frontier@.contains(p) ==> reach(*grid, start, level as nat).contains(p),
        forall|p: TilePos| #[trigger] first_reached(*grid, start, p, level as nat) ==> frontier@.contains(p),
        visited_matches(*grid, old(visited)@, reach(*grid, start, level as nat)),
        listing_ok(*grid, start, old(out)@, reach(*grid, start, level as nat), level as nat),
    ensures
        final(visited)@.len() == grid.spec_cell_count(),
        visited_matches(*grid, final(visited)@, reach(*grid, start, level as nat + 1)),
        listing_ok(*grid, start, final(out)@, reach(*grid, start, level as nat + 1), level as nat + 1),
        forall|p: TilePos| #[trigger] next@.contains(p) <==> first_reached(*grid, start, p, level as nat + 1),
{
    let ghost g = *grid;
    let ghost k = level as nat;
    let ghost here = reach(g, start, k);
    let ghost after = reach(g, start, k + 1);
    let ghost n = g.spec_cell_count();
    let size = grid.size();
    proof {
        lemma_reach_monotone(g, start, k, k + 1);
        g.lemma_grid_facts();
    }
    let mut next: Vec<TilePos> = Vec::new();
    let mut i: usize = 0;
    while i < frontier.len()
        invariant
            g == *grid,
            grid.wf(),
            size == g.spec_size(),
            in_bounds(start, size),
            level < u32::MAX,
            k == level as nat,
            here == reach(g, start, k),
            after == reach(g, start, k + 1),
            here.subset_of(after),
            i <= frontier@.len(),
            visited@.len() == n,
            n == g.spec_cell_count(),
            forall|p: TilePos| #[trigger] frontier@.contains(p) ==> here.contains(p),
            visited_matches(g, visited@, here.union(next@.to_set())),
            forall|q: TilePos| #[trigger] next@.contains(q) ==> after.contains(q) && !here.contains(q),
            forall|i2: int, q: TilePos|
                0 <= i2 < i && passable(g, q) && #[trigger] spec_neighbors(frontier@[i2], size).contains(q)
                    ==> here.contains(q) || next@.contains(q),
            listing_ok(g, start, out@, here.union(next@.to_set()), k + 1),
        decreases frontier@.len() - i,
    {
        let p = frontier[i];
        assert(frontier@.contains(p));
        proof {
            lemma_reach_in_bounds(g, start, k, p);
            g.lemma_grid_facts();
        }
        let nbrs = get_neighbors_tilepos(p, &size);
        let mut j: usize = 0;
        while j < nbrs.len()
            invariant
                g == *grid,
                grid.wf(),
                size == g.spec_size(),
                level < u32::MAX,
                k == level as nat,
                here == reach(g, start, k),
                after == reach(g, start, k + 1),
                here.subset_of(after),
                here.contains(p),
                p == frontier@[i as int],
                i < frontier@.len(),
                nbrs@ == spec_neighbors(p, size),
                j <= nbrs@.len(),
                visited@.len() == n,
                n == g.spec_cell_count(),
                visited_matches(g, visited@, here.union(next@.to_set())),
                forall|q: TilePos| #[trigger] next@.contains(q) ==> after.contains(q) && !here.contains(q),
                forall|i2: int, q: TilePos|
                    0 <= i2 < i && passable(g, q) && #[trigger] spec_neighbors(frontier@[i2], size).contains(q)
                        ==> here.contains(q) || next@.contains(q),
                forall|j2: int|
                    0 <= j2 < j && passable(g, #[trigger] nbrs@[j2]) ==> here.contains(nbrs@[j2])
                        || next@.contains(nbrs@[j2]),
                listing_ok(g, start, out@, here.union(next@.to_set()), k + 1),
            decreases nbrs@.len() - j,
        {
            let q = nbrs[j];
            proof {
                crate::grid::lemma_neighbors_in_bounds(p, size, j as int);
                assert(spec_neighbors(p, size).contains(q));
            }
            if let Some(t) = grid.get(q) {
                if t.tile_type == TileType::Colorable {
                    let qi = grid.index_of(q);
                    if !visited[qi] {
                        proof {
                            g.lemma_index(q, q);
                            assert(!here.union(next@.to_set()).contains(q));
                            assert(ring(g, here).contains(q));
                        }
                        let ghost old_next = next@;
                        let ghost old_out = out@;
                        let ghost old_visited = visited@;
                        visited.set(qi, true);
                        next.push(q);
                        out.push((q, level + 1));
                        proof {
                            let cov = here.union(next@.to_set());
                            let old_cov = here.union(old_next.to_set());
                            assert(next@ == old_next.push(q));
                            assert(cov =~= old_cov.insert(q));
                            assert forall|r: TilePos| in_bounds(r, size) implies (visited@[#[trigger] g.spec_index(r)]
                                <==> cov.contains(r)) by {
                                g.lemma_index(r, q);
                                if r != q {
                                    assert(visited@[g.spec_index(r)] == old_visited[g.spec_index(r)]);
                                }
                            }
                            assert(first_reached(g, start, q, k + 1));
                            assert forall|a: int| 0 <= a < out@.len() implies #[trigger] first_reached(
                                g,
                                start,
                                out@[a].0,
                                out@[a].1 as nat,
                            ) && out@[a].1 <= k + 1 && cov.contains(out@[a].0) by {
                                if a < old_out.len() {
                                    assert(out@[a] == old_out[a]);
                                    assert(first_reached(g, start, old_out[a].0, old_out[a].1 as nat));
                                }
                            }
                            assert forall|p2: TilePos| cov.contains(p2) implies exists|a: int|
                                0 <= a < out@.len() && #[trigger] out@[a].0 == p2 by {
                                if p2 == q {
                                    assert(out@[out@.len() - 1].0 == p2);
                                } else {
                                    assert(old_cov.contains(p2));
                                    let a = choose|a: int| 0 <= a < old_out.len() && #[trigger] old_out[a].0 == p2;
                                    assert(out@[a].0 == p2);
                                }
                            }
                            assert forall|a: int, b: int| 0 <= a < b < out@.len() implies out@[a].0 != out@[b].0
                                && out@[a].1 <= out@[b].1 by {
                                assert(out@[a] == old_out[a]);
                                assert(first_reached(g, start, old_out[a].0, old_out[a].1 as nat));
                                if b < old_out.len() {
                                    assert(out@[b] == old_out[b]);
                                }
                            }
                        }
                    } else {
                        proof {
                            g.lemma_index(q, q);
                            assert(here.union(next@.to_set()).contains(q));
                            assert(next@.to_set().contains(q) ==> next@.contains(q));
                        }
                    }
                }
            }
            j = j + 1;
        }
        proof {
            assert forall|i2: int, q: TilePos|
                0 <= i2 < i + 1 && passable(g, q) && #[trigger] spec_neighbors(frontier@[i2], size).contains(q)
                implies here.contains(q) || next@.contains(q) by {
                if i2 == i {
                    let j2 = choose|j2: int| 0 <= j2 < nbrs@.len() && nbrs@[j2] == q;
                    assert(passable(g, nbrs@[j2]));
                }
            }
        }
        i = i + 1;
    }
    proof {
        assert forall|r: TilePos| after.contains(r) implies here.contains(r) || next@.contains(r) by {
            if !here.contains(r) {
                lemma_ring_from_frontier(g, start, k, r);
                let p = choose|p: TilePos| #[trigger] first_reached(g, start, p, k)
                    && spec_neighbors(p, size).contains(r);
                assert(frontier@.contains(p));
                let i2 = choose|i2: int| 0 <= i2 < frontier@.len() && frontier@[i2] == p;
                assert(spec_neighbors(frontier@[i2], size).contains(r));
            }
        }
        assert(here.union(next@.to_set()) =~= after);
        assert forall|p: TilePos| #[trigger] next@.contains(p) <==> first_reached(g, start, p, k + 1) by {
            if first_reached(g, start, p, k + 1) {
                assert(after.contains(p));
            }
        }
    }
    next
}

/// The tiles a building standing on `start` reaches in at most `strength`
/// steps through colourable tiles, each with its distance, nearest first.
/// The tile it stands on comes first, at distance 0.
pub fn simple_reach(grid: &TileGrid, start: TilePos, strength: u32) -> (out: Vec<(TilePos, u32)>)
    requires
        grid.wf(),
        in_bounds(start, grid.spec_size()),
    ensures
        is_reach_listing(*grid, start, strength as nat, out@),
        out@.len() > 0 && out@[0] == (start, 0u32),
{
    let ghost g = *grid;
    let n = grid.cell_count();
    proof {
        g.lemma_grid_facts();
        g.lemma_index(start, start);
    }
    let mut visited: Vec<bool> = Vec::new();
    while visited.len() < n
        invariant
            visited@.len() <= n,
            forall|i: int| 0 <= i < visited@.len() ==> !visited@[i],
        decreases n - visited@.len(),
    {
        visited.push(false);
    }
    let start_index = grid.index_of(start);
    visited.set(start_index, true);

    let mut out: Vec<(TilePos, u32)> = Vec::new();
    out.push((start, 0));
    let mut frontier: Vec<TilePos> = Vec::new();
    frontier.push(start);
    let mut level: u32 = 0;

    proof {
        assert forall|r: TilePos| in_bounds(r, g.spec_size()) implies (visited@[#[trigger] g.spec_index(r)]
            <==> reach(g, start, 0).contains(r)) by {
            g.lemma_index(r, start);
        }
        assert forall|p: TilePos| reach(g, start, 0).contains(p) implies exists|i: int|
            0 <= i < out@.len() && #[trigger] out@[i].0 == p by {
            assert(out@[0].0 == p);
        }
        assert(first_reached(g, start, out@[0].0, out@[0].1 as nat));
    }

    while level < strength && frontier.len() > 0
        invariant
            g == *grid,
            grid.wf(),
            in_bounds(start, g.spec_size()),
            level <= strength,
            visited@.len() == n,
            n == g.spec_cell_count(),
            visited_matches(g, visited@, reach(g, start, level as nat)),
            level == 0 ==> frontier@ == seq![start],
            level > 0 ==> forall|p: TilePos| #[trigger] frontier@.contains(p)
                <==> first_reached(g, start, p, level as nat),
            listing_ok(g, start, out@, reach(g, start, level as nat), level as nat),
        decreases strength - level,
    {
        proof {
            let k = level as nat;
            assert forall|p: TilePos| #[trigger] frontier@.contains(p) implies reach(g, start, k).contains(p) by {
                if level == 0 {
                    let i0 = choose|i0: int| 0 <= i0 < frontier@.len() && frontier@[i0] == p;
                    assert(p == start);
                } else {
                    assert(first_reached(g, start, p, k));
                }
            }
            assert forall|p: TilePos| #[trigger] first_reached(g, start, p, k) implies frontier@.contains(p) by {
                if level == 0 {
                    assert(p == start);
                    assert(frontier@[0] == start);
                }
            }
        }
        let next = expand_frontier(grid, start, level, &frontier, &mut visited, &mut out);
        frontier = next;
        level = level + 1;
    }
    proof {
        let k = level as nat;
        if level < strength {
            assert(frontier@.len() == 0);
            if k == 0 {
                assert(frontier@.contains(start));
            }
            assert(reach(g, start, k) =~= reach(g, start, (k - 1) as nat)) by {
                lemma_reach_monotone(g, start, (k - 1) as nat, k);
                assert forall|p: TilePos| reach(g, start, k).contains(p) implies reach(g, start, (k - 1) as nat).contains(p) by {
                    if !reach(g, start, (k - 1) as nat).contains(p) {
                        assert(first_reached(g, start, p, k));
                        assert(frontier@.contains(p));
                    }
                }
            }
            lemma_reach_stable(g, start, k, strength as nat);
        }
        assert forall|a: int| 0 <= a < out@.len() implies #[trigger] first_reached(g, start, out@[a].0, out@[a].1 as nat)
            && out@[a].1 <= strength by {
        }
    }
    out
}

/// The sides in the order a line building extends its four arms.
pub open spec fn side_at(i: int) -> Side {
    if i == 0 {
        Side::North
    } else if i == 1 {
        Side::East
    } else if i == 2 {
        Side::South
    } else {
        Side::West
    }
}

/// The tile `j` steps from `start` straight towards side `d`, if every tile
/// on the way (after `start`) is passable.
pub open spec fn ray(g: TileGrid, start: TilePos, d: Side, j: nat) -> Option<TilePos>
    decreases j,
{
    if j == 0 {
        Some(start)
    } else {
        match ray(g, start, d, (j - 1) as nat) {
            Some(p) => match spec_step(p, d, g.spec_size()) {
                Some(q) => if passable(g, q) {
                    Some(q)
                } else {
                    None
                },
                None => None,
            },
            None => None,
        }
    }
}

/// The arm tiles at distance `k` on the first `upto` sides, with their distance.
pub open spec fn ray_entries(g: TileGrid, start: TilePos, k: nat, upto: int) -> Seq<(TilePos, u32)>
    decreases upto,
{
    if upto <= 0 {
        Seq::empty()
    } else {
        let prev = ray_entries(g, start, k, upto - 1);
        match ray(g, start, side_at(upto - 1), k) {
            Some(p) => prev.push((p, k as u32)),
            None => prev,
        }
    }
}

/// What a line building standing on `start` with arms of length `k` reaches:
/// its own tile, then the arm tiles one step away (north, east, south, west),
/// then two steps away, and so on.
pub open spec fn line_listing(g: TileGrid, start: TilePos, k: nat) -> Seq<(TilePos, u32)>
    decreases k,
{
    if k == 0 {
        seq![(start, 0u32)]
    } else {
        line_listing(g, start, (k - 1) as nat) + ray_entries(g, start, k, 4)
    }
}

/// An arm stops for good at the first tile it cannot pass.
proof fn lemma_ray_stays_stopped(g: TileGrid, start: TilePos, d: Side, j: nat, m: nat)
    requires
        ray(g, start, d, j) is None,
        j <= m,
    ensures
        ray(g, start, d, m) is None,
    decreases m,
{
    if j < m {
        lemma_ray_stays_stopped(g, start, d, j, (m - 1) as nat);
    }
}

/// Every arm tile lies inside the map.
pub proof fn lemma_ray_in_bounds(g: TileGrid, start: TilePos, d: Side, j: nat)
    requires
        g.wf(),
        in_bounds(start, g.spec_size()),
        ray(g, start, d, j) is Some,
    ensures
        in_bounds(ray(g, start, d, j)->0, g.spec_size()),
    decreases j,
{
    g.lemma_grid_facts();
    if j > 0 {
        lemma_ray_in_bounds(g, start, d, (j - 1) as nat);
    }
}

proof fn lemma_no_more_entries(g: TileGrid, start: TilePos, k: nat, m: nat)
    requires
        forall|i: int| 0 <= i < 4 ==> #[trigger] ray(g, start, side_at(i), k) is None,
        k <= m,
    ensures
        line_listing(g, start, m) == line_listing(g, start, k),
    decreases m,
{
    if k < m {
        lemma_no_more_entries(g, start, k, (m - 1) as nat);
        assert forall|i: int| 0 <= i < 4 implies #[trigger] ray(g, start, side_at(i), m) is None by {
            lemma_ray_stays_stopped(g, start, side_at(i), k, m);
        }
        assert(ray(g, start, side_at(0), m) is None);
        assert(ray(g, start, side_at(1), m) is None);
        assert(ray(g, start, side_at(2), m) is None);
        assert(ray(g, start, side_at(3), m) is None);
        assert(ray_entries(g, start, m, 0) == Seq::<(TilePos, u32)>::empty());
        assert(ray_entries(g, start, m, 1) == Seq::<(TilePos, u32)>::empty());
        assert(ray_entries(g, start, m, 2) == Seq::<(TilePos, u32)>::empty());
        assert(ray_entries(g, start, m, 3) == Seq::<(TilePos, u32)>::empty());
        assert(ray_entries(g, start, m, 4) == Seq::<(TilePos, u32)>::empty());
        assert(line_listing(g, start, m) =~= line_listing(g, start, (m - 1) as nat));
    }
}

fn side_index(i: usize) -> (d: Side)
    requires
        i < 4,
    ensures
        d == side_at(i as int),
{
    if i == 0 {
        Side::North
    } else if i == 1 {
        Side::East
    } else if i == 2 {
        Side::South
    } else {
        Side::West
    }
}

/// The tiles a line building standing on `start` reaches: its own tile and
/// four straight arms of at most `strength` colourable tiles, nearest first.
pub fn line_reach(grid: &TileGrid, start: TilePos, strength: u32) -> (out: Vec<(TilePos, u32)>)
    requires
        grid.wf(),
        in_bounds(start, grid.spec_size()),
    ensures
        out@ == line_listing(*grid, start, strength as nat),
{
    let ghost g = *grid;
    let size = grid.size();
    let mut out: Vec<(TilePos, u32)> = Vec::new();
    out.push((start, 0));
    let mut arms: Vec<Option<TilePos>> = Vec::new();
    arms.push(Some(start));
    arms.push(Some(start));
    arms.push(Some(start));
    arms.push(Some(start));
    let mut level: u32 = 0;
    proof {
        assert(out@ =~= line_listing(g, start, 0));
    }
    while level < strength && (arms[0].is_some() || arms[1].is_some() || arms[2].is_some()
        || arms[3].is_some())
        invariant
            g == *grid,
            grid.wf(),
            size == g.spec_size(),
            in_bounds(start, size),
            level <= strength,
            arms@.len() == 4,
            forall|i: int| 0 <= i < 4 ==> #[trigger] arms@[i] == ray(g, start, side_at(i), level as nat),
            out@ == line_listing(g, start, level as nat),
        decreases strength - level,
    {
        let ghost k = level as nat + 1;
        let ghost base = out@;
        let mut i: usize = 0;
        proof {
            assert(base + ray_entries(g, start, k, 0) =~= base);
        }
        while i < 4
            invariant
                g == *grid,
                grid.wf(),
                size == g.spec_size(),
                in_bounds(start, size),
                level < strength,
                k == level as nat + 1,
                arms@.len() == 4,
                i <= 4,
                forall|i2: int| 0 <= i2 < i ==> #[trigger] arms@[i2] == ray(g, start, side_at(i2), k),
                forall|i2: int| i <= i2 < 4 ==> #[trigger] arms@[i2] == ray(g, start, side_at(i2), level as nat),
                base == line_listing(g, start, level as nat),
                out@ == base + ray_entries(g, start, k, i as int),
            decreases 4 - i,
        {
            let d = side_index(i);
            let cur = arms[i];
            let ghost old_arms = arms@;
            if let Some(p) = cur {
                proof {
                    lemma_ray_in_bounds(g, start, d, level as nat);
                    g.lemma_grid_facts();
                }
                let next = match step(p, d, &size) {
                    Some(q) => match grid.get(q) {
                        Some(t) => if t.tile_type == TileType::Colorable {
                            Some(q)
                        } else {
                            None
                        },
                        None => None,
                    },
                    None => None,
                };
                assert(next == ray(g, start, d, k));
                arms.set(i, next);
                if let Some(q) = next {
                    out.push((q, level + 1));
                }
            } else {
                assert(ray(g, start, d, k) is None);
            }
            proof {
                assert(out@ =~= base + ray_entries(g, start, k, i as int + 1));
                assert forall|i2: int| 0 <= i2 < i + 1 implies #[trigger] arms@[i2] == ray(g, start, side_at(i2), k) by {
                    if i2 < i {
                        assert(arms@[i2] == old_arms[i2]);
                    }
                }
                assert forall|i2: int| i + 1 <= i2 < 4 implies #[trigger] arms@[i2] == ray(g, start, side_at(i2), level as nat) by {
                    assert(arms@[i2] == old_arms[i2]);
                }
            }
            i = i + 1;
        }
        level = level + 1;
    }
    proof {
        if level < strength {
            assert forall|i: int| 0 <= i < 4 implies #[trigger] ray(g, start, side_at(i), level as nat) is None by {
                assert(arms@[i] == ray(g, start, side_at(i), level as nat));
            }
            lemma_no_more_entries(g, start, level as nat, strength as nat);
        }
    }
    out
}

/// The pathfinder of buildings whose colour spreads to every side, for the
/// building kind `BuildingType`.
pub struct SimplePathfinder<BuildingType> {
    pd: core::marker::PhantomData<BuildingType>,
}

impl<BuildingType> SimplePathfinder<BuildingType> {
    /// A pathfinder for buildings of kind `BuildingType`.
    pub fn new() -> (p: Self) {
        SimplePathfinder { pd: core::marker::PhantomData }
    }

    /// The tiles a building of this kind standing on `start` with the given
    /// strength reaches, as `simple_reach` finds them.
    pub fn pathfind(&self, grid: &TileGrid, start: TilePos, strength: u32) -> (out: Vec<(TilePos, u32)>)
        requires
            grid.wf(),
            in_bounds(start, grid.spec_size()),
        ensures
            is_reach_listing(*grid, start, strength as nat, out@),
            out@.len() > 0 && out@[0] == (start, 0u32),
    {
        simple_reach(grid, start, strength)
    }
}

} // verus!
