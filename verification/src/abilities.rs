//! Abilities: nukes, fortifies and expands, what placing one costs, and the
//! guaranteed conflicts each forces when it is activated.

use vstd::prelude::*;
use crate::buildings::PathfindStrengthExt;
use crate::conflicts::{ColorConflictGuarantees, ConflictType};
use crate::grid::{
    get_neighbors_tilepos, in_bounds, neighbor_safe, spec_neighbors, TileGrid, TilePos, TileType,
};
use crate::objects::listing_tiles;
use crate::pathfinding::{first_reached, is_reach_listing, reach, simple_reach};
use crate::points::PlayerRecord;
use crate::random::random_between;

verus! {

broadcast use vstd::seq_lib::group_seq_properties;

/// The kinds of ability a player can place.
#[derive(Clone, Copy, PartialEq, Eq, Structural, Debug, Hash)]
pub enum Abilities {
    Nuke,
    Fortify,
    Expand,
}

/// Marks an object as an ability.
#[derive(Clone, Copy, PartialEq, Eq, Structural, Debug, Hash)]
pub struct AbilityMarker {
    pub requires_player_territory: bool,
}

/// Marks an ability that has run out and is to be removed.
#[derive(Clone, Copy, PartialEq, Eq, Structural, Debug, Hash)]
pub struct DestroyAbility;

/// An ability of kind `T`.
#[derive(Clone, Copy, PartialEq, Eq, Structural, Debug, Hash)]
pub struct Ability<T> {
    pub ability_type: T,
}

/// Damages every tile within `strength`, `min_tile_damage` to
/// `max_tile_damage` times each.
#[derive(Clone, Copy, PartialEq, Eq, Structural, Debug, Hash)]
pub struct Nuke {
    pub strength: u32,
    pub min_tile_damage: u32,
    pub max_tile_damage: u32,
}

/// Strengthens the caster's tiles within `strength`.
#[derive(Clone, Copy, PartialEq, Eq, Structural, Debug, Hash)]
pub struct Fortify {
    pub strength: u32,
    pub min_tile_strengthen: u32,
    pub max_tile_strengthen: u32,
}

/// Colours the tiles within `strength` that touch the caster's territory.
#[derive(Clone, Copy, PartialEq, Eq, Structural, Debug, Hash)]
pub struct Expand {
    pub strength: u32,
    pub min_tile_strengthen: u32,
    pub max_tile_strengthen: u32,
}

impl PathfindStrengthExt for Nuke {
    open spec fn reach_strength(&self) -> u32 {
        self.strength
    }

    fn pathfinding_strength(&self) -> (s: u32)
        ensures
            s == self.strength,
    {
        self.strength
    }
}

impl PathfindStrengthExt for Expand {
    open spec fn reach_strength(&self) -> u32 {
        self.strength
    }

    fn pathfinding_strength(&self) -> (s: u32)
        ensures
            s == self.strength,
    {
        self.strength
    }
}

impl<T: PathfindStrengthExt> PathfindStrengthExt for Ability<T> {
    open spec fn reach_strength(&self) -> u32 {
        self.ability_type.reach_strength()
    }

    fn pathfinding_strength(&self) -> (s: u32) {
        self.ability_type.pathfinding_strength()
    }
}

/// The guaranteed conflict a caster's ability forces on tile `p`.
pub open spec fn guarantee_on(
    p: TilePos,
    caster: usize,
    affect_caster: bool,
    affect_neutral: bool,
    affect_others: bool,
    kind: ConflictType,
) -> ColorConflictGuarantees {
    ColorConflictGuarantees {
        tile_pos: p,
        casting_player: caster,
        affect_casting_player: affect_caster,
        affect_neutral,
        affect_other_players: affect_others,
        conflict_type: kind,
    }
}

/// The guaranteed conflict of `caster` with the given flags and kind, on
/// any tile.
pub open spec fn guarantee_maker(
    caster: usize,
    affect_caster: bool,
    affect_neutral: bool,
    affect_others: bool,
    kind: ConflictType,
) -> spec_fn(TilePos) -> ColorConflictGuarantees {
    |p: TilePos| guarantee_on(p, caster, affect_caster, affect_neutral, affect_others, kind)
}

/// A damaging conflict of `caster` that affects every tile.
pub open spec fn nuke_guarantee(caster: usize) -> spec_fn(TilePos) -> ColorConflictGuarantees {
    guarantee_maker(caster, true, true, true, ConflictType::Damage)
}

/// A natural conflict of `caster` that affects every tile.
pub open spec fn expand_guarantee(caster: usize) -> spec_fn(TilePos) -> ColorConflictGuarantees {
    guarantee_maker(caster, true, true, true, ConflictType::Natural)
}

/// A strengthening conflict of `caster` that affects only the caster's tiles.
pub open spec fn fortify_guarantee(caster: usize) -> spec_fn(TilePos) -> ColorConflictGuarantees {
    guarantee_maker(caster, true, false, false, ConflictType::Stengthen)
}

/// `g` repeated `n` times.
pub open spec fn copies(g: ColorConflictGuarantees, n: nat) -> Seq<ColorConflictGuarantees> {
    Seq::new(n, |_i: int| g)
}

/// For each tile `tiles[i]`, `counts[i]` copies of the guarantee `make(tiles[i])`,
/// in order.
pub open spec fn guarantees_per_tile(
    tiles: Seq<TilePos>,
    counts: Seq<nat>,
    make: spec_fn(TilePos) -> ColorConflictGuarantees,
) -> Seq<ColorConflictGuarantees>
    decreases tiles.len(),
{
    if tiles.len() == 0 || counts.len() != tiles.len() {
        Seq::empty()
    } else {
        guarantees_per_tile(tiles.drop_last(), counts.drop_last(), make) + copies(
            make(tiles.last()),
            counts.last(),
        )
    }
}

/// Every count lies in `[low, high]`.
pub open spec fn counts_between(counts: Seq<nat>, low: nat, high: nat) -> bool {
    forall|i: int| 0 <= i < counts.len() ==> low <= #[trigger] counts[i] <= high
}

/// The counts as natural numbers.
pub open spec fn as_nats(counts: Seq<u32>) -> Seq<nat> {
    counts.map_values(|c: u32| c as nat)
}

/// Appends, for each tile `tiles[i]`, `counts[i]` copies of the guaranteed
/// conflict of `caster` with the given flags and kind on that tile.
pub fn push_guarantees(
    events: &mut Vec<ColorConflictGuarantees>,
    tiles: &Vec<TilePos>,
    counts: &Vec<u32>,
    caster: usize,
    affect_caster: bool,
    affect_neutral: bool,
    affect_others: bool,
    kind: ConflictType,
)
    requires
        tiles@.len() == counts@.len(),
    ensures
        final(events)@ == old(events)@ + guarantees_per_tile(
            tiles@,
            as_nats(counts@),
            guarantee_maker(caster, affect_caster, affect_neutral, affect_others, kind),
        ),
        forall|k: int| old(events)@.len() <= k < final(events)@.len() ==> tiles@.contains(#[trigger] final(events)@[k].tile_pos),
{
    let ghost make = guarantee_maker(caster, affect_caster, affect_neutral, affect_others, kind);
    let mut i: usize = 0;
    proof {
        assert(tiles@.subrange(0, 0) =~= Seq::<TilePos>::empty());
        assert(events@ =~= old(events)@ + guarantees_per_tile(
            tiles@.subrange(0, 0),
            as_nats(counts@.subrange(0, 0)),
            make,
        ));
    }
    while i < tiles.len()
        invariant
            tiles@.len() == counts@.len(),
            i <= tiles@.len(),
            make == guarantee_maker(caster, affect_caster, affect_neutral, affect_others, kind),
            events@ == old(events)@ + guarantees_per_tile(
                tiles@.subrange(0, i as int),
                as_nats(counts@.subrange(0, i as int)),
                make,
            ),
            forall|k: int| old(events)@.len() <= k < events@.len() ==> tiles@.contains(#[trigger] events@[k].tile_pos),
        decreases tiles@.len() - i,
    {
        let p = tiles[i];
        let g = ColorConflictGuarantees {
            tile_pos: p,
            casting_player: caster,
            affect_casting_player: affect_caster,
            affect_neutral,
            affect_other_players: affect_others,
            conflict_type: kind,
        };
        let ghost before = events@;
        push_copies(events, g, counts[i]);
        proof {
            assert forall|k: int| old(events)@.len() <= k < events@.len() implies tiles@.contains(#[trigger] events@[k].tile_pos) by {
                if k < before.len() {
                    assert(events@[k] == before[k]);
                } else {
                    assert(events@[k] == copies(g, counts@[i as int] as nat)[k - before.len()]);
                    assert(tiles@[i as int] == p);
                }
            }
            assert(tiles@.subrange(0, i + 1).drop_last() =~= tiles@.subrange(0, i as int));
            assert(as_nats(counts@.subrange(0, i + 1)).drop_last() =~= as_nats(counts@.subrange(0, i as int)));
            assert(as_nats(counts@.subrange(0, i + 1)).last() == counts@[i as int] as nat);
            assert(make(p) == g);
        }
        i = i + 1;
    }
    proof {
        assert(tiles@.subrange(0, i as int) =~= tiles@);
        assert(counts@.subrange(0, i as int) =~= counts@);
    }
}

/// Draws `n` counts, each between `low` and `high`.
fn draw_counts(n: usize, low: u32, high: u32) -> (counts: Vec<u32>)
    requires
        low <= high || n == 0,
    ensures
        counts@.len() == n,
        counts_between(as_nats(counts@), low as nat, high as nat),
{
    let mut counts: Vec<u32> = Vec::new();
    while counts.len() < n
        invariant
            low <= high || n == 0,
            counts@.len() <= n,
            counts_between(as_nats(counts@), low as nat, high as nat),
        decreases n - counts@.len(),
    {
        let c = random_between(low, high);
        let ghost before = counts@;
        counts.push(c);
        proof {
            assert forall|j: int| 0 <= j < as_nats(counts@).len() implies low <= #[trigger] as_nats(counts@)[j] <= high by {
                if j < before.len() {
                    assert(as_nats(counts@)[j] == as_nats(before)[j]);
                }
            }
        }
    }
    counts
}

fn push_copies(events: &mut Vec<ColorConflictGuarantees>, g: ColorConflictGuarantees, n: u32)
    ensures
        final(events)@ == old(events)@ + copies(g, n as nat),
{
    let mut k: u32 = 0;
    while k < n
        invariant
            k <= n,
            events@ == old(events)@ + copies(g, k as nat),
        decreases n - k,
    {
        events.push(g);
        k = k + 1;
        assert(events@ =~= old(events)@ + copies(g, k as nat));
    }
}

/// What an activated nuke of `caster` does: for each tile of its cache, a
/// random number between `min_tile_damage` and `max_tile_damage` of damaging
/// guaranteed conflicts that affect every tile. Returns whether the nuke has
/// run out (no cooldown ticks left) and is to be destroyed.
pub fn simulate_nuke(
    caster: usize,
    nuke: &Nuke,
    timer_ticks: u32,
    cache: &Vec<TilePos>,
    events: &mut Vec<ColorConflictGuarantees>,
) -> (destroy: bool)
    requires
        nuke.min_tile_damage <= nuke.max_tile_damage || cache@.len() == 0,
    ensures
        destroy == (timer_ticks == 0),
        exists|counts: Seq<nat>|
            counts.len() == cache@.len() && counts_between(
                counts,
                nuke.min_tile_damage as nat,
                nuke.max_tile_damage as nat,
            ) && final(events)@ == old(events)@ + guarantees_per_tile(
                cache@,
                counts,
                nuke_guarantee(caster),
            ),
        forall|k: int| old(events)@.len() <= k < final(events)@.len() ==> cache@.contains(#[trigger] final(events)@[k].tile_pos),
{
    let counts = draw_counts(cache.len(), nuke.min_tile_damage, nuke.max_tile_damage);
    push_guarantees(events, cache, &counts, caster, true, true, true, ConflictType::Damage);
    timer_ticks == 0
}

/// A tile an expand of `caster` colours: the tile itself or one of its
/// neighbours is held by the caster.
pub open spec fn touches_territory(g: TileGrid, caster: usize, t: TilePos) -> bool {
    exists|q: TilePos|
        #![trigger spec_neighbors(t, g.spec_size()).push(t).contains(q)]
        spec_neighbors(t, g.spec_size()).push(t).contains(q) && match g.spec_tile(q) {
            Some(s) => match s.claim {
                Some(c) => c.player == caster,
                None => false,
            },
            None => false,
        }
}

/// The tiles of `cache` an expand of `caster` colours, in cache order.
pub open spec fn expand_targets(g: TileGrid, caster: usize, cache: Seq<TilePos>) -> Seq<TilePos>
    decreases cache.len(),
{
    if cache.len() == 0 {
        Seq::empty()
    } else {
        let prev = expand_targets(g, caster, cache.drop_last());
        if touches_territory(g, caster, cache.last()) {
            prev.push(cache.last())
        } else {
            prev
        }
    }
}

fn is_expand_target(grid: &TileGrid, caster: usize, t: TilePos) -> (r: bool)
    requires
        grid.wf(),
        neighbor_safe(t),
    ensures
        r == touches_territory(*grid, caster, t),
{
    let size = grid.size();
    let mut candidates = get_neighbors_tilepos(t, &size);
    candidates.push(t);
    let ghost cands = candidates@;
    let mut i: usize = 0;
    while i < candidates.len()
        invariant
            grid.wf(),
            size == grid.spec_size(),
            candidates@ == cands,
            cands == spec_neighbors(t, size).push(t),
            i <= cands.len(),
            forall|j: int| 0 <= j < i ==> match grid.spec_tile(#[trigger] cands[j]) {
                Some(s) => match s.claim {
                    Some(c) => c.player != caster,
                    None => true,
                },
                None => true,
            },
        decreases cands.len() - i,
    {
        let q = candidates[i];
        if let Some(s) = grid.get(q) {
            if let Some(c) = s.claim {
                if c.player == caster {
                    assert(cands.contains(q));
                    return true;
                }
            }
        }
        i = i + 1;
    }
    proof {
        if touches_territory(*grid, caster, t) {
            let q = choose|q: TilePos|
                #![trigger spec_neighbors(t, grid.spec_size()).push(t).contains(q)]
                spec_neighbors(t, grid.spec_size()).push(t).contains(q) && match grid.spec_tile(q) {
                    Some(s) => match s.claim {
                        Some(c) => c.player == caster,
                        None => false,
                    },
                    None => false,
                };
            let j = choose|j: int| 0 <= j < cands.len() && cands[j] == q;
            assert(match grid.spec_tile(cands[j]) {
                Some(s) => match s.claim {
                    Some(c) => c.player != caster,
                    None => true,
                },
                None => true,
            });
        }
    }
    false
}

/// Every tile an expand colours is a tile of its cache.
pub proof fn lemma_expand_targets_in_cache(g: TileGrid, caster: usize, cache: Seq<TilePos>, t: TilePos)
    requires
        expand_targets(g, caster, cache).contains(t),
    ensures
        cache.contains(t),
    decreases cache.len(),
{
    if cache.len() > 0 {
        let prev = expand_targets(g, caster, cache.drop_last());
        if prev.contains(t) {
            lemma_expand_targets_in_cache(g, caster, cache.drop_last(), t);
            let k = choose|k: int| 0 <= k < cache.drop_last().len() && cache.drop_last()[k] == t;
            assert(cache[k] == t);
        } else {
            assert(t == cache.last());
            assert(cache[cache.len() - 1] == t);
        }
    }
}

/// An expand colours every tile of its cache that the caster holds or that
/// borders a tile the caster holds, whoever holds that cache tile itself.
pub proof fn lemma_expand_reaches_bordering_tiles(g: TileGrid, caster: usize, cache: Seq<TilePos>, k: int, q: TilePos)
    requires
        0 <= k < cache.len(),
        spec_neighbors(cache[k], g.spec_size()).push(cache[k]).contains(q),
        g.spec_tile(q) matches Some(s) && s.claim matches Some(c) && c.player == caster,
    ensures
        expand_targets(g, caster, cache).contains(cache[k]),
    decreases cache.len(),
{
    let prev = cache.drop_last();
    if k < cache.len() - 1 {
        assert(prev[k] == cache[k]);
        lemma_expand_reaches_bordering_tiles(g, caster, prev, k, q);
        let j = choose|j: int| 0 <= j < expand_targets(g, caster, prev).len() && expand_targets(g, caster, prev)[j] == cache[k];
        if touches_territory(g, caster, cache.last()) {
            assert(expand_targets(g, caster, cache)[j] == cache[k]);
        }
    } else {
        assert(touches_territory(g, caster, cache.last()));
        let ts = expand_targets(g, caster, cache);
        assert(ts[ts.len() - 1] == cache[k]);
    }
}

/// Every tile among the caster's tiles of a list is a tile of the list.
pub proof fn lemma_owned_tiles_in_list(g: TileGrid, caster: usize, tiles: Seq<TilePos>, t: TilePos)
    requires
        owned_tiles(g, caster, tiles).contains(t),
    ensures
        tiles.contains(t),
    decreases tiles.len(),
{
    if tiles.len() > 0 {
        let prev = owned_tiles(g, caster, tiles.drop_last());
        if prev.contains(t) {
            lemma_owned_tiles_in_list(g, caster, tiles.drop_last(), t);
            let k = choose|k: int| 0 <= k < tiles.drop_last().len() && tiles.drop_last()[k] == t;
            assert(tiles[k] == t);
        } else {
            assert(t == tiles.last());
            assert(tiles[tiles.len() - 1] == t);
        }
    }
}

/// The tiles of `cache` an expand of `caster` colours, in cache order.
pub fn expand_target_tiles(grid: &TileGrid, caster: usize, cache: &Vec<TilePos>) -> (targets: Vec<TilePos>)
    requires
        grid.wf(),
        forall|i: int| 0 <= i < cache@.len() ==> neighbor_safe(#[trigger] cache@[i]),
    ensures
        targets@ == expand_targets(*grid, caster, cache@),
{
    let mut targets: Vec<TilePos> = Vec::new();
    let mut i: usize = 0;
    while i < cache.len()
        invariant
            grid.wf(),
            i <= cache@.len(),
            forall|j: int| 0 <= j < cache@.len() ==> neighbor_safe(#[trigger] cache@[j]),
            targets@ == expand_targets(*grid, caster, cache@.subrange(0, i as int)),
        decreases cache@.len() - i,
    {
        let t = cache[i];
        proof {
            assert(cache@.subrange(0, i + 1).drop_last() =~= cache@.subrange(0, i as int));
        }
        if is_expand_target(grid, caster, t) {
            targets.push(t);
        }
        i = i + 1;
    }
    proof {
        assert(cache@.subrange(0, i as int) =~= cache@);
    }
    targets
}

/// What an activated expand of `caster` standing on `position` does: a random
/// number between `min_tile_strengthen` and `max_tile_strengthen` of natural
/// guaranteed conflicts on its own tile, then as many again (drawn anew) on
/// each tile of its cache that touches the caster's territory. Returns
/// whether the expand has run out and is to be destroyed.
pub fn simulate_expand(
    grid: &TileGrid,
    caster: usize,
    position: TilePos,
    expand: &Expand,
    timer_ticks: u32,
    cache: &Vec<TilePos>,
    events: &mut Vec<ColorConflictGuarantees>,
) -> (destroy: bool)
    requires
        grid.wf(),
        expand.min_tile_strengthen <= expand.max_tile_strengthen,
        forall|i: int| 0 <= i < cache@.len() ==> neighbor_safe(#[trigger] cache@[i]),
    ensures
        destroy == (timer_ticks == 0),
        exists|counts: Seq<nat>|
            counts_between(counts, expand.min_tile_strengthen as nat, expand.max_tile_strengthen as nat)
                && final(events)@ == old(events)@ + guarantees_per_tile(
                seq![position] + expand_targets(*grid, caster, cache@),
                counts,
                expand_guarantee(caster),
            ) && counts.len() == 1 + expand_targets(*grid, caster, cache@).len(),
        forall|k: int| old(events)@.len() <= k < final(events)@.len() ==> (#[trigger] final(events)@[k].tile_pos) == position
            || cache@.contains(final(events)@[k].tile_pos),
{
    let targets = expand_target_tiles(grid, caster, cache);
    let mut all: Vec<TilePos> = Vec::new();
    all.push(position);
    let mut i: usize = 0;
    while i < targets.len()
        invariant
            i <= targets@.len(),
            all@ == seq![position] + targets@.subrange(0, i as int),
        decreases targets@.len() - i,
    {
        all.push(targets[i]);
        i = i + 1;
        assert(all@ =~= seq![position] + targets@.subrange(0, i as int));
    }
    assert(targets@.subrange(0, i as int) =~= targets@);
    let counts = draw_counts(all.len(), expand.min_tile_strengthen, expand.max_tile_strengthen);
    push_guarantees(events, &all, &counts, caster, true, true, true, ConflictType::Natural);
    proof {
        assert forall|k: int| old(events)@.len() <= k < events@.len() implies (#[trigger] events@[k].tile_pos) == position
            || cache@.contains(events@[k].tile_pos) by {
            let t = events@[k].tile_pos;
            assert(all@.contains(t));
            let j = choose|j: int| 0 <= j < all@.len() && all@[j] == t;
            if j > 0 {
                assert(targets@[j - 1] == t);
                assert(expand_targets(*grid, caster, cache@).contains(t));
                lemma_expand_targets_in_cache(*grid, caster, cache@, t);
            }
        }
    }
    timer_ticks == 0
}

/// The tiles of `tiles` held by `caster`, in order.
pub open spec fn owned_tiles(g: TileGrid, caster: usize, tiles: Seq<TilePos>) -> Seq<TilePos>
    decreases tiles.len(),
{
    if tiles.len() == 0 {
        Seq::empty()
    } else {
        let prev = owned_tiles(g, caster, tiles.drop_last());
        let held = match g.spec_tile(tiles.last()) {
            Some(s) => match s.claim {
                Some(c) => c.player == caster,
                None => false,
            },
            None => false,
        };
        if held {
            prev.push(tiles.last())
        } else {
            prev
        }
    }
}

/// The tiles of a reach listing, after the first, that `caster` holds, in
/// listing order: the tiles a fortify strengthens besides its own.
pub fn fortify_target_tiles(grid: &TileGrid, caster: usize, listing: &Vec<(TilePos, u32)>) -> (targets: Vec<TilePos>)
    requires
        grid.wf(),
        listing@.len() > 0,
    ensures
        targets@ == owned_tiles(*grid, caster, listing_tiles(listing@).drop_first()),
{
    let ghost rest = listing_tiles(listing@).drop_first();
    let mut targets: Vec<TilePos> = Vec::new();
    let mut i: usize = 1;
    proof {
        assert(rest.subrange(0, 0) =~= Seq::<TilePos>::empty());
    }
    while i < listing.len()
        invariant
            grid.wf(),
            1 <= i <= listing@.len(),
            rest == listing_tiles(listing@).drop_first(),
            targets@ == owned_tiles(*grid, caster, rest.subrange(0, i - 1)),
        decreases listing@.len() - i,
    {
        let t = listing[i].0;
        proof {
            assert(rest[i - 1] == t);
            assert(rest.subrange(0, i as int).drop_last() =~= rest.subrange(0, i - 1));
        }
        let held = match grid.get(t) {
            Some(s) => match s.claim {
                Some(c) => c.player == caster,
                None => false,
            },
            None => false,
        };
        if held {
            targets.push(t);
        }
        i = i + 1;
    }
    proof {
        assert(rest.subrange(0, i - 1) =~= rest);
    }
    targets
}

/// What an activated fortify of `caster` standing on `position` does: two
/// strengthening conflicts on its own tile, then, for each tile within
/// `strength` steps through colourable tiles (nearest first) that the caster
/// holds, a random number from `min_tile_strengthen` up to but not including
/// `max_tile_strengthen` of them. These conflicts affect only the caster's
/// tiles. Returns whether the fortify has run out and is to be destroyed.
pub fn simulate_fortify(
    grid: &TileGrid,
    caster: usize,
    position: TilePos,
    fortify: &Fortify,
    timer_ticks: u32,
    events: &mut Vec<ColorConflictGuarantees>,
) -> (destroy: bool)
    requires
        grid.wf(),
        in_bounds(position, grid.spec_size()),
        fortify.min_tile_strengthen < fortify.max_tile_strengthen || forall|p: TilePos|
            reach(*grid, position, fortify.strength as nat).contains(p) ==> p == position,
    ensures
        destroy == (timer_ticks == 0),
        exists|listing: Seq<(TilePos, u32)>, counts: Seq<nat>|
            is_reach_listing(*grid, position, fortify.strength as nat, listing) && listing.len() > 0
                && listing[0] == (position, 0u32) && counts.len() == owned_tiles(
                *grid,
                caster,
                listing_tiles(listing).drop_first(),
            ).len() && counts_between(
                counts,
                fortify.min_tile_strengthen as nat,
                (fortify.max_tile_strengthen - 1) as nat,
            ) && final(events)@ == old(events)@ + copies(fortify_guarantee(caster)(position), 2)
                + guarantees_per_tile(
                owned_tiles(*grid, caster, listing_tiles(listing).drop_first()),
                counts,
                fortify_guarantee(caster),
            ),
        forall|k: int| old(events)@.len() <= k < final(events)@.len() ==> (#[trigger] final(events)@[k].tile_pos) == position
            || reach(*grid, position, fortify.strength as nat).contains(final(events)@[k].tile_pos),
{
    let own = ColorConflictGuarantees {
        tile_pos: position,
        casting_player: caster,
        affect_casting_player: true,
        affect_neutral: false,
        affect_other_players: false,
        conflict_type: ConflictType::Stengthen,
    };
    events.push(own);
    events.push(own);
    proof {
        assert(fortify_guarantee(caster)(position) == own);
        assert(events@ =~= old(events)@ + copies(fortify_guarantee(caster)(position), 2));
    }
    let listing = simple_reach(grid, position, fortify.strength);
    let targets = fortify_target_tiles(grid, caster, &listing);
    proof {
        if !(fortify.min_tile_strengthen < fortify.max_tile_strengthen) && listing@.len() > 1 {
            let t = listing@[1].0;
            assert(first_reached(*grid, position, t, listing@[1].1 as nat));
            crate::pathfinding::lemma_reach_monotone(*grid, position, listing@[1].1 as nat, fortify.strength as nat);
            assert(reach(*grid, position, fortify.strength as nat).contains(t));
            assert(t != listing@[0].0);
        }
        if listing@.len() == 1 {
            assert(listing_tiles(listing@).drop_first() =~= Seq::<TilePos>::empty());
        }
    }
    let high: u32 = if fortify.max_tile_strengthen > 0 { fortify.max_tile_strengthen - 1 } else { 0 };
    let counts = draw_counts(targets.len(), fortify.min_tile_strengthen, high);
    let ghost pushed = events@;
    push_guarantees(events, &targets, &counts, caster, true, false, false, ConflictType::Stengthen);
    proof {
        assert forall|k: int| old(events)@.len() <= k < events@.len() implies (#[trigger] events@[k].tile_pos) == position
            || reach(*grid, position, fortify.strength as nat).contains(events@[k].tile_pos) by {
            let t = events@[k].tile_pos;
            if k < pushed.len() {
                assert(events@[k] == pushed[k]);
                assert(pushed[k] == own);
            } else {
                assert(targets@.contains(t));
                let rest = listing_tiles(listing@).drop_first();
                lemma_owned_tiles_in_list(*grid, caster, rest, t);
                let j = choose|j: int| 0 <= j < rest.len() && rest[j] == t;
                assert(listing@[j + 1].0 == t);
                assert(first_reached(*grid, position, listing@[j + 1].0, listing@[j + 1].1 as nat));
                crate::pathfinding::lemma_reach_monotone(*grid, position, listing@[j + 1].1 as nat, fortify.strength as nat);
            }
        }
    }
    timer_ticks == 0
}

/// A request by player `player_id` to place an ability on a tile.
#[derive(Clone, Copy, PartialEq, Eq, Structural, Debug, Hash)]
pub struct SpawnAbility {
    pub ability_type: Abilities,
    pub player_id: usize,
    pub target_tile_pos: TilePos,
}

/// Why a request to place an ability was refused.
#[derive(Clone, Copy, PartialEq, Eq, Structural, Debug, Hash)]
pub enum SpawnAbilityError {
    /// No player has the requesting id.
    PlayerNotFound,
    /// No tile stands at the target position.
    TileNotFound,
    /// A fortify needs a claimed tile.
    TileNotClaimed,
    /// The target tile cannot be coloured.
    TileNotColorable,
    /// The player has fewer than 50 ability points, or a fortify targets
    /// another player's tile.
    NotEnoughPoints,
    /// The request was paid for, but the ability could not be put on the
    /// map: no tile stands there, the tile already holds an ability, or no
    /// identity is left for it.
    TileFull,
}

impl SpawnAbilityError {
    /// The message the game shows for the error.
    pub fn message(&self) -> (m: &'static str)
        ensures
            m@ == match *self {
                SpawnAbilityError::PlayerNotFound => "Failed to Find Player ID"@,
                SpawnAbilityError::TileNotFound => "Failed to Find Fortify Tile Pos"@,
                SpawnAbilityError::TileNotClaimed => "Tile doesnt contain a player marker"@,
                SpawnAbilityError::TileNotColorable => "Tile is not a Colorable Tile"@,
                SpawnAbilityError::NotEnoughPoints => "Not enough points to place"@,
                SpawnAbilityError::TileFull => "No room for the ability on the tile"@,
            },
    {
        match self {
            SpawnAbilityError::PlayerNotFound => "Failed to Find Player ID",
            SpawnAbilityError::TileNotFound => "Failed to Find Fortify Tile Pos",
            SpawnAbilityError::TileNotClaimed => "Tile doesnt contain a player marker",
            SpawnAbilityError::TileNotColorable => "Tile is not a Colorable Tile",
            SpawnAbilityError::NotEnoughPoints => "Not enough points to place",
            SpawnAbilityError::TileFull => "No room for the ability on the tile",
        }
    }
}

/// The ability to place, with its settings.
#[derive(Clone, Copy, PartialEq, Eq, Structural, Debug, Hash)]
pub enum AbilityKind {
    Nuke(Nuke),
    Fortify(Fortify),
    Expand(Expand),
}

/// An ability to be placed: what it is, where, for whom, how many times it
/// acts (cooldown ticks) and the cooldown between acts in milliseconds.
#[derive(Clone, Copy, PartialEq, Eq, Structural, Debug, Hash)]
pub struct AbilitySpawn {
    pub ability: AbilityKind,
    pub position: TilePos,
    pub player: usize,
    pub timer_ticks: u32,
    pub cooldown_millis: u32,
}

/// The cost of an ability in ability points.
pub const ABILITY_COST: u32 = 50;

/// The index of the first player with id `id` in `players`, if any.
pub open spec fn find_player(players: Seq<PlayerRecord>, id: usize) -> Option<int>
    decreases players.len(),
{
    if players.len() == 0 {
        None
    } else {
        match find_player(players.drop_last(), id) {
            Some(i) => Some(i),
            None => if players.last().id == id {
                Some(players.len() - 1)
            } else {
                None
            },
        }
    }
}

/// The ability a request places, with its fixed settings.
pub open spec fn spawned_ability(cmd: SpawnAbility) -> AbilitySpawn {
    match cmd.ability_type {
        Abilities::Nuke => AbilitySpawn {
            ability: AbilityKind::Nuke(Nuke { strength: 5, min_tile_damage: 2, max_tile_damage: 4 }),
            position: cmd.target_tile_pos,
            player: cmd.player_id,
            timer_ticks: 2,
            cooldown_millis: 300,
        },
        Abilities::Fortify => AbilitySpawn {
            ability: AbilityKind::Fortify(Fortify { strength: 5, min_tile_strengthen: 3, max_tile_strengthen: 5 }),
            position: cmd.target_tile_pos,
            player: cmd.player_id,
            timer_ticks: 20,
            cooldown_millis: 300,
        },
        Abilities::Expand => AbilitySpawn {
            ability: AbilityKind::Expand(Expand { strength: 2, min_tile_strengthen: 1, max_tile_strengthen: 2 }),
            position: cmd.target_tile_pos,
            player: cmd.player_id,
            timer_ticks: 10,
            cooldown_millis: 100,
        },
    }
}

/// The outcome of a request, checked in this order: the player must exist; a
/// fortify or expand needs an existing colourable tile, and a fortify a
/// claimed one; then the player needs 50 ability points, and a fortify must
/// target the player's own tile.
pub open spec fn spawn_ability_result(
    players: Seq<PlayerRecord>,
    g: TileGrid,
    cmd: SpawnAbility,
) -> Result<AbilitySpawn, SpawnAbilityError> {
    match find_player(players, cmd.player_id) {
        None => Err(SpawnAbilityError::PlayerNotFound),
        Some(i) => {
            let enough = players[i].points.ability_points >= ABILITY_COST;
            match cmd.ability_type {
                Abilities::Nuke => if enough {
                    Ok(spawned_ability(cmd))
                } else {
                    Err(SpawnAbilityError::NotEnoughPoints)
                },
                Abilities::Fortify => match g.spec_tile(cmd.target_tile_pos) {
                    None => Err(SpawnAbilityError::TileNotFound),
                    Some(t) => match t.claim {
                        None => Err(SpawnAbilityError::TileNotClaimed),
                        Some(c) => if t.tile_type != TileType::Colorable {
                            Err(SpawnAbilityError::TileNotColorable)
                        } else if enough && c.player == cmd.player_id {
                            Ok(spawned_ability(cmd))
                        } else {
                            Err(SpawnAbilityError::NotEnoughPoints)
                        },
                    },
                },
                Abilities::Expand => match g.spec_tile(cmd.target_tile_pos) {
                    None => Err(SpawnAbilityError::TileNotFound),
                    Some(t) => if t.tile_type != TileType::Colorable {
                        Err(SpawnAbilityError::TileNotColorable)
                    } else if enough {
                        Ok(spawned_ability(cmd))
                    } else {
                        Err(SpawnAbilityError::NotEnoughPoints)
                    },
                },
            }
        },
    }
}

/// The index `find_player` gives is an index of the list.
pub proof fn lemma_find_player_in_range(players: Seq<PlayerRecord>, id: usize)
    ensures
        find_player(players, id) matches Some(i) ==> 0 <= i < players.len() && players[i].id == id,
    decreases players.len(),
{
    if players.len() > 0 {
        lemma_find_player_in_range(players.drop_last(), id);
    }
}

fn find_player_index(players: &Vec<PlayerRecord>, id: usize) -> (r: Option<usize>)
    ensures
        match r {
            Some(i) => find_player(players@, id) == Some(i as int),
            None => find_player(players@, id) is None,
        },
        r matches Some(i) ==> i < players@.len(),
{
    let mut i: usize = 0;
    while i < players.len()
        invariant
            i <= players@.len(),
            find_player(players@.subrange(0, i as int), id) is None,
        decreases players@.len() - i,
    {
        assert(players@.subrange(0, i + 1).drop_last() =~= players@.subrange(0, i as int));
        if players[i].id == id {
            proof {
                lemma_find_player_prefix(players@, id, (i + 1) as nat);
            }
            return Some(i);
        }
        i = i + 1;
    }
    assert(players@.subrange(0, i as int) =~= players@);
    None
}

proof fn lemma_find_player_prefix(players: Seq<PlayerRecord>, id: usize, n: nat)
    requires
        n <= players.len(),
        find_player(players.subrange(0, n as int), id) is Some,
    ensures
        find_player(players, id) == find_player(players.subrange(0, n as int), id),
    decreases players.len() - n,
{
    if n < players.len() {
        assert(players.subrange(0, (n + 1) as int).drop_last() =~= players.subrange(0, n as int));
        assert(find_player(players.subrange(0, (n + 1) as int), id) == find_player(players.subrange(0, n as int), id));
        lemma_find_player_prefix(players, id, n + 1);
    } else {
        assert(players.subrange(0, n as int) =~= players);
    }
}

impl SpawnAbility {
    /// Carries out the request: on success the player's ability points drop
    /// by 50 and the ability to place is returned; on refusal nothing changes.
    pub fn execute(&self, players: &mut Vec<PlayerRecord>, grid: &TileGrid) -> (r: Result<AbilitySpawn, SpawnAbilityError>)
        requires
            grid.wf(),
        ensures
            r == spawn_ability_result(old(players)@, *grid, *self),
            r is Ok ==> {
                let i = find_player(old(players)@, self.player_id)->0;
                final(players)@ == old(players)@.update(
                    i,
                    PlayerRecord {
                        points: crate::points::PlayerPoints {
                            ability_points: (old(players)@[i].points.ability_points - ABILITY_COST) as u32,
                            ..old(players)@[i].points
                        },
                        ..old(players)@[i]
                    },
                )
            },
            r is Err ==> final(players)@ == old(players)@,
    {
        let i = match find_player_index(players, self.player_id) {
            Some(i) => i,
            None => return Err(SpawnAbilityError::PlayerNotFound),
        };
        let enough = players[i].points.ability_points >= ABILITY_COST;
        match self.ability_type {
            Abilities::Nuke => {
                if !enough {
                    return Err(SpawnAbilityError::NotEnoughPoints);
                }
            },
            Abilities::Fortify => {
                let t = match grid.get(self.target_tile_pos) {
                    Some(t) => t,
                    None => return Err(SpawnAbilityError::TileNotFound),
                };
                let c = match t.claim {
                    Some(c) => c,
                    None => return Err(SpawnAbilityError::TileNotClaimed),
                };
                if t.tile_type != TileType::Colorable {
                    return Err(SpawnAbilityError::TileNotColorable);
                }
                if !(enough && c.player == self.player_id) {
                    return Err(SpawnAbilityError::NotEnoughPoints);
                }
            },
            Abilities::Expand => {
                let t = match grid.get(self.target_tile_pos) {
                    Some(t) => t,
                    None => return Err(SpawnAbilityError::TileNotFound),
                };
                if t.tile_type != TileType::Colorable {
                    return Err(SpawnAbilityError::TileNotColorable);
                }
                if !enough {
                    return Err(SpawnAbilityError::NotEnoughPoints);
                }
            },
        }
        let mut rec = players[i];
        rec.points.ability_points = rec.points.ability_points - ABILITY_COST;
        players.set(i, rec);
        let spawn = match self.ability_type {
            Abilities::Nuke => AbilitySpawn {
                ability: AbilityKind::Nuke(Nuke { strength: 5, min_tile_damage: 2, max_tile_damage: 4 }),
                position: self.target_tile_pos,
                player: self.player_id,
                timer_ticks: 2,
                cooldown_millis: 300,
            },
            Abilities::Fortify => AbilitySpawn {
                ability: AbilityKind::Fortify(Fortify { strength: 5, min_tile_strengthen: 3, max_tile_strengthen: 5 }),
                position: self.target_tile_pos,
                player: self.player_id,
                timer_ticks: 20,
                cooldown_millis: 300,
            },
            Abilities::Expand => AbilitySpawn {
                ability: AbilityKind::Expand(Expand { strength: 2, min_tile_strengthen: 1, max_tile_strengthen: 2 }),
                position: self.target_tile_pos,
                player: self.player_id,
                timer_ticks: 10,
                cooldown_millis: 100,
            },
        };
        Ok(spawn)
    }
}

} // verus!
