//! Buildings: pulsers, scatters and lines, and what each asks to colour when
//! it is activated.

use vstd::prelude::*;
use crate::color::TileColorStrength;
use crate::conflicts::{convert_tile, converts, ColorConflictEvent};
use crate::grid::{TileClaim, TileGrid, TilePos};
use crate::objects::ObjectId;
use crate::random::{random_below};

verus! {

broadcast use vstd::seq_lib::group_seq_properties;

/// The kinds of building a player can place.
#[derive(Clone, Copy, PartialEq, Eq, Structural, Debug, Hash)]
pub enum BuildingTypes {
    Pulser,
    Scatter,
    Line,
}

/// Marks an object as a building.
#[derive(Clone, Copy, PartialEq, Eq, Structural, Debug, Hash)]
pub struct BuildingMarker;

/// Marks an object whose cooldown has run out: it acts in this step.
#[derive(Clone, Copy, PartialEq, Eq, Structural, Debug, Hash)]
pub struct Activate;

/// A building of kind `T`.
#[derive(Clone, Copy, PartialEq, Eq, Structural, Debug, Hash)]
pub struct Building<T> {
    pub building_type: T,
}

/// Colours up to `max_pulse_tiles` of the nearest tiles it can still change.
#[derive(Clone, Copy, PartialEq, Eq, Structural, Debug, Hash)]
pub struct Pulser {
    pub strength: u32,
    pub max_pulse_tiles: u32,
}

/// Colours `scatter_amount + 1` tiles picked at random within its range.
#[derive(Clone, Copy, PartialEq, Eq, Structural, Debug, Hash)]
pub struct Scatter {
    pub scatter_range: u32,
    pub scatter_amount: u32,
}

/// Colours along four straight arms, hitting each tile `hits_per_tile` times
/// and at most `max_changed_per_side` times per arm.
#[derive(Clone, Copy, PartialEq, Eq, Structural, Debug, Hash)]
pub struct Line {
    pub strength: u32,
    pub hits_per_tile: u32,
    pub max_changed_per_side: u32,
}

/// How far the reach of a building or ability extends.
pub trait PathfindStrengthExt {
    /// The strength its reach extends by.
    spec fn reach_strength(&self) -> u32;

    /// Returns the strength its reach extends by.
    fn pathfinding_strength(&self) -> (s: u32)
        ensures
            s == self.reach_strength(),
    ;
}

impl PathfindStrengthExt for Pulser {
    open spec fn reach_strength(&self) -> u32 {
        self.strength
    }

    fn pathfinding_strength(&self) -> (s: u32)
        ensures
            s == self.strength,
    {
        self.strength
    }
}

impl PathfindStrengthExt for Scatter {
    open spec fn reach_strength(&self) -> u32 {
        self.scatter_range
    }

    fn pathfinding_strength(&self) -> (s: u32)
        ensures
            s == self.scatter_range,
    {
        self.scatter_range
    }
}

impl PathfindStrengthExt for Line {
    open spec fn reach_strength(&self) -> u32 {
        self.strength
    }

    fn pathfinding_strength(&self) -> (s: u32)
        ensures
            s == self.strength,
    {
        self.strength
    }
}

impl<T: PathfindStrengthExt> PathfindStrengthExt for Building<T> {
    open spec fn reach_strength(&self) -> u32 {
        self.building_type.reach_strength()
    }

    fn pathfinding_strength(&self) -> (s: u32) {
        self.building_type.pathfinding_strength()
    }
}

/// The owner's full-strength tile: nothing left to change there.
pub open spec fn owned_full(claim: Option<TileClaim>, player: usize) -> bool {
    match claim {
        Some(c) => c.player == player && c.color.tile_color_strength == TileColorStrength::Five,
        None => false,
    }
}

/// A pulser of `player` may target a tile that exists and is not already its
/// owner's at full strength.
pub open spec fn pulse_target(g: TileGrid, player: usize, p: TilePos) -> bool {
    match g.spec_tile(p) {
        Some(t) => !owned_full(t.claim, player),
        None => false,
    }
}

/// The pulse candidates among the first `n` cache tiles: the targetable ones
/// in cache order, stopping once `limit` are found.
pub open spec fn pulse_candidates(g: TileGrid, player: usize, cache: Seq<TilePos>, limit: nat, n: nat) -> Seq<TilePos>
    decreases n,
{
    if n == 0 {
        Seq::empty()
    } else {
        let c = pulse_candidates(g, player, cache, limit, (n - 1) as nat);
        if c.len() < limit && pulse_target(g, player, cache[n - 1]) {
            c.push(cache[n - 1])
        } else {
            c
        }
    }
}

/// `kept` lists indices into a sequence of length `len`, strictly increasing,
/// starting with index 0 when there is any.
pub open spec fn keeps_first_in_order(kept: Seq<int>, len: nat) -> bool {
    &&& forall|i: int| 0 <= i < kept.len() ==> 0 <= #[trigger] kept[i] < len
    &&& forall|i: int, j: int| 0 <= i < j < kept.len() ==> kept[i] < kept[j]
    &&& kept.len() > 0 ==> kept[0] == 0
}

/// `after` is `before` cut down to `max` elements by removing elements other
/// than the first, keeping the order.
pub open spec fn trimmed_from(before: Seq<TilePos>, after: Seq<TilePos>, max: nat) -> bool {
    &&& after.len() == if before.len() <= max { before.len() } else { max }
    &&& exists|kept: Seq<int>|
        keeps_first_in_order(kept, before.len()) && kept.len() == after.len() && forall|i: int|
            0 <= i < after.len() ==> #[trigger] after[i] == before[kept[i]]
}

/// Removes randomly chosen elements, never the first, until at most `max`
/// are left.
pub fn trim_targets(targets: &mut Vec<TilePos>, max: usize)
    requires
        max > 0 || old(targets)@.len() == 0,
    ensures
        trimmed_from(old(targets)@, final(targets)@, max as nat),
{
    let ghost before = targets@;
    let ghost mut kept: Seq<int> = Seq::new(before.len(), |i: int| i);
    assert(forall|i: int| 0 <= i < targets@.len() ==> #[trigger] targets@[i] == before[kept[i]]);
    while targets.len() > max
        invariant
            max > 0 || targets@.len() == 0,
            targets@.len() >= if before.len() <= max { before.len() } else { max as nat },
            targets@.len() <= before.len(),
            keeps_first_in_order(kept, before.len()),
            kept.len() == targets@.len(),
            forall|i: int| 0 <= i < targets@.len() ==> #[trigger] targets@[i] == before[kept[i]],
        decreases targets@.len(),
    {
        let len = targets.len();
        let r = random_below(1, len);
        let ghost old_targets = targets@;
        let ghost old_kept = kept;
        targets.remove(r);
        proof {
            kept = kept.remove(r as int);
            assert forall|i: int| 0 <= i < targets@.len() implies #[trigger] targets@[i] == before[kept[i]] by {
                if i < r {
                    assert(targets@[i] == old_targets[i]);
                    assert(kept[i] == old_kept[i]);
                } else {
                    assert(targets@[i] == old_targets[i + 1]);
                    assert(kept[i] == old_kept[i + 1]);
                }
            }
            assert forall|i: int, j: int| 0 <= i < j < kept.len() implies kept[i] < kept[j] by {
                let i2 = if i < r { i } else { i + 1 };
                let j2 = if j < r { j } else { j + 1 };
                assert(kept[i] == old_kept[i2]);
                assert(kept[j] == old_kept[j2]);
            }
            assert forall|i: int| 0 <= i < kept.len() implies 0 <= #[trigger] kept[i] < before.len() by {
                let i2 = if i < r { i } else { i + 1 };
                assert(kept[i] == old_kept[i2]);
            }
            if kept.len() > 0 {
                assert(kept[0] == old_kept[0]);
            }
        }
    }
    proof {
        assert(keeps_first_in_order(kept, before.len()) && kept.len() == targets@.len() && forall|i: int|
            0 <= i < targets@.len() ==> #[trigger] targets@[i] == before[kept[i]]);
    }
}

/// The requests an object `id` of `player` makes on the tiles `targets`, in
/// order: one per existing tile it can change.
pub open spec fn convert_events(g: TileGrid, id: ObjectId, player: usize, targets: Seq<TilePos>) -> Seq<ColorConflictEvent>
    decreases targets.len(),
{
    if targets.len() == 0 {
        Seq::empty()
    } else {
        let prev = convert_events(g, id, player, targets.drop_last());
        let p = targets.last();
        match g.spec_tile(p) {
            Some(t) => if converts(player, t.tile_type, t.claim) {
                prev.push(ColorConflictEvent { from_object: id, tile_pos: p, player })
            } else {
                prev
            },
            None => prev,
        }
    }
}

/// Asks to colour each existing tile of `targets` the object can change;
/// returns how many it asked for.
pub fn convert_targets(
    grid: &TileGrid,
    id: ObjectId,
    player: usize,
    targets: &Vec<TilePos>,
    events: &mut Vec<ColorConflictEvent>,
) -> (asked: usize)
    requires
        grid.wf(),
    ensures
        final(events)@ == old(events)@ + convert_events(*grid, id, player, targets@),
        asked == convert_events(*grid, id, player, targets@).len(),
{
    let mut asked: usize = 0;
    let mut i: usize = 0;
    let ghost base = events@;
    while i < targets.len()
        invariant
            grid.wf(),
            i <= targets@.len(),
            events@ == base + convert_events(*grid, id, player, targets@.subrange(0, i as int)),
            asked == convert_events(*grid, id, player, targets@.subrange(0, i as int)).len(),
            asked <= i,
        decreases targets@.len() - i,
    {
        let p = targets[i];
        proof {
            assert(targets@.subrange(0, i + 1).drop_last() =~= targets@.subrange(0, i as int));
        }
        if let Some(t) = grid.get(p) {
            if convert_tile(&id, &player, p, t.tile_type, &t.claim, events) {
                asked = asked + 1;
            }
        }
        i = i + 1;
    }
    proof {
        assert(targets@.subrange(0, i as int) =~= targets@);
    }
    asked
}

/// What a pulser does when activated: it takes the first
/// `max_pulse_tiles + 3` tiles of its cache it can target, drops random ones
/// (never the first) until at most `max_pulse_tiles` remain, and asks to
/// colour them. Returns whether it asked for any tile; a pulser that asked
/// for none stops being simulated until a tile it affects changes.
pub fn simulate_pulser(
    grid: &TileGrid,
    id: ObjectId,
    player: usize,
    pulser: &Pulser,
    cache: &Vec<TilePos>,
    events: &mut Vec<ColorConflictEvent>,
) -> (keep_simulating: bool)
    requires
        grid.wf(),
        pulser.max_pulse_tiles + 3 <= u32::MAX,
        pulser.max_pulse_tiles > 0 || pulse_candidates(
            *grid,
            player,
            cache@,
            (pulser.max_pulse_tiles + 3) as nat,
            cache@.len(),
        ).len() == 0,
    ensures
        exists|targets: Seq<TilePos>|
            trimmed_from(
                pulse_candidates(*grid, player, cache@, (pulser.max_pulse_tiles + 3) as nat, cache@.len()),
                targets,
                pulser.max_pulse_tiles as nat,
            ) && final(events)@ == old(events)@ + convert_events(*grid, id, player, targets) && keep_simulating
                == (convert_events(*grid, id, player, targets).len() > 0),
{
    let limit: usize = (pulser.max_pulse_tiles + 3) as usize;
    let mut targets: Vec<TilePos> = Vec::new();
    let mut i: usize = 0;
    while i < cache.len()
        invariant
            grid.wf(),
            limit == pulser.max_pulse_tiles + 3,
            i <= cache@.len(),
            targets@ == pulse_candidates(*grid, player, cache@, limit as nat, i as nat),
        decreases cache@.len() - i,
    {
        let p = cache[i];
        if targets.len() < limit {
            if let Some(t) = grid.get(p) {
                let full = match t.claim {
                    Some(c) => c.player == player && c.color.max_strength(),
                    None => false,
                };
                if !full {
                    targets.push(p);
                }
            }
        }
        i = i + 1;
    }
    let ghost candidates = targets@;
    trim_targets(&mut targets, pulser.max_pulse_tiles as usize);
    let asked = convert_targets(grid, id, player, &targets, events);
    asked > 0
}

/// What a scatter does when activated: it picks `scatter_amount + 1` tiles of
/// its cache at random (a tile may be picked again) and asks to colour each
/// picked tile it can change. Returns whether it asked for any tile.
pub fn simulate_scatter(
    grid: &TileGrid,
    id: ObjectId,
    player: usize,
    scatter: &Scatter,
    cache: &Vec<TilePos>,
    events: &mut Vec<ColorConflictEvent>,
) -> (keep_simulating: bool)
    requires
        grid.wf(),
        cache@.len() > 0,
    ensures
        exists|picked: Seq<TilePos>|
            picked.len() == scatter.scatter_amount + 1 && (forall|i: int|
                0 <= i < picked.len() ==> cache@.contains(#[trigger] picked[i]))
                && final(events)@ == old(events)@ + convert_events(*grid, id, player, picked) && keep_simulating
                == (convert_events(*grid, id, player, picked).len() > 0),
{
    let ghost base = events@;
    let ghost mut picked: Seq<TilePos> = Seq::empty();
    let mut asked: bool = false;
    let rounds: u64 = scatter.scatter_amount as u64 + 1;
    let mut k: u64 = 0;
    while k < rounds
        invariant
            grid.wf(),
            cache@.len() > 0,
            rounds == scatter.scatter_amount + 1,
            k <= rounds,
            picked.len() == k,
            forall|i: int| 0 <= i < picked.len() ==> cache@.contains(#[trigger] picked[i]),
            events@ == base + convert_events(*grid, id, player, picked),
            asked == (convert_events(*grid, id, player, picked).len() > 0),
        decreases rounds - k,
    {
        let y = random_below(0, cache.len());
        let p = cache[y];
        let ghost before = picked;
        proof {
            picked = picked.push(p);
            assert(picked.drop_last() =~= before);
            assert(cache@.contains(p));
        }
        if let Some(t) = grid.get(p) {
            if convert_tile(&id, &player, p, t.tile_type, &t.claim, events) {
                asked = true;
            }
        }
        k = k + 1;
    }
    asked
}

/// The arm of a line building that `target` lies on, seen from `start`:
/// 0 west, 1 north, 2 east, 3 south (and the building's own tile).
pub open spec fn spec_side_index(start: TilePos, target: TilePos) -> int {
    if start.x > target.x {
        0
    } else if start.y < target.y {
        1
    } else if start.x < target.x {
        2
    } else {
        3
    }
}

/// The arm of a line building that `target_pos` lies on, seen from
/// `starting_pos`.
pub fn get_side_index(starting_pos: TilePos, target_pos: TilePos) -> (i: usize)
    ensures
        i == spec_side_index(starting_pos, target_pos),
{
    if starting_pos.x > target_pos.x {
        return 0;
    }
    if starting_pos.y < target_pos.y {
        return 1;
    }
    if starting_pos.x < target_pos.x {
        return 2;
    }
    3
}

/// The progress of a line building over its cache: tiles changed per arm,
/// tiles changed in all, and the requests made.
pub struct LineProgress {
    pub sides: Seq<nat>,
    pub changed: nat,
    pub events: Seq<ColorConflictEvent>,
}

/// A line building reaches tile `p` of its cache: an existing tile whose arm
/// has room gets `hits_per_tile` hits, but no more than the arm has room for;
/// each hit counts as a change unless the tile is already the owner's at full
/// strength, and asks to colour the tile when the building can change it.
pub open spec fn line_step(
    g: TileGrid,
    id: ObjectId,
    player: usize,
    start: TilePos,
    line: Line,
    s: LineProgress,
    p: TilePos,
) -> LineProgress {
    let idx = spec_side_index(start, p);
    match g.spec_tile(p) {
        None => s,
        Some(t) => if s.sides[idx] >= line.max_changed_per_side || owned_full(t.claim, player)
            || line.hits_per_tile == 0 {
            s
        } else {
            let room = (line.max_changed_per_side - s.sides[idx]) as nat;
            let n: nat = if line.hits_per_tile <= room { line.hits_per_tile as nat } else { room };
            let ev = ColorConflictEvent { from_object: id, tile_pos: p, player };
            LineProgress {
                sides: s.sides.update(idx, s.sides[idx] + n),
                changed: s.changed + n,
                events: if converts(player, t.tile_type, t.claim) {
                    s.events + Seq::new(n, |_i: int| ev)
                } else {
                    s.events
                },
            }
        },
    }
}

/// The progress after the first `n` tiles of the cache.
pub open spec fn line_progress(
    g: TileGrid,
    id: ObjectId,
    player: usize,
    start: TilePos,
    line: Line,
    cache: Seq<TilePos>,
    n: nat,
) -> LineProgress
    decreases n,
{
    if n == 0 {
        LineProgress { sides: seq![0nat, 0nat, 0nat, 0nat], changed: 0, events: Seq::empty() }
    } else {
        line_step(g, id, player, start, line, line_progress(g, id, player, start, line, cache, (n - 1) as nat), cache[n - 1])
    }
}

/// What a line building standing on `start` does when activated: it goes
/// over its cache, nearest first, hitting each tile as `line_step` says.
/// Returns whether it changed any tile; a line that changed none stops being
/// simulated until a tile it affects changes.
pub fn simulate_line(
    grid: &TileGrid,
    id: ObjectId,
    player: usize,
    start: TilePos,
    line: &Line,
    cache: &Vec<TilePos>,
    events: &mut Vec<ColorConflictEvent>,
) -> (keep_simulating: bool)
    requires
        grid.wf(),
    ensures
        final(events)@ == old(events)@ + line_progress(*grid, id, player, start, *line, cache@, cache@.len()).events,
        keep_simulating == (line_progress(*grid, id, player, start, *line, cache@, cache@.len()).changed > 0),
{
    let ghost base = events@;
    let max = line.max_changed_per_side;
    let mut sides: Vec<u32> = Vec::new();
    sides.push(0);
    sides.push(0);
    sides.push(0);
    sides.push(0);
    let mut changed: bool = false;
    let mut i: usize = 0;
    proof {
        assert(sides@.map_values(|v: u32| v as nat) =~= seq![0nat, 0nat, 0nat, 0nat]);
    }
    while i < cache.len()
        invariant
            grid.wf(),
            max == line.max_changed_per_side,
            i <= cache@.len(),
            sides@.len() == 4,
            forall|a: int| 0 <= a < 4 ==> #[trigger] sides@[a] <= max,
            sides@.map_values(|v: u32| v as nat) == line_progress(*grid, id, player, start, *line, cache@, i as nat).sides,
            events@ == base + line_progress(*grid, id, player, start, *line, cache@, i as nat).events,
            changed == (line_progress(*grid, id, player, start, *line, cache@, i as nat).changed > 0),
        decreases cache@.len() - i,
    {
        let p = cache[i];
        let ghost before = line_progress(*grid, id, player, start, *line, cache@, i as nat);
        let ghost ev = ColorConflictEvent { from_object: id, tile_pos: p, player };
        let ghost ev_base = events@;
        if let Some(t) = grid.get(p) {
            let idx = get_side_index(start, p);
            if sides[idx] < max {
                let full = match t.claim {
                    Some(c) => c.player == player && c.color.max_strength(),
                    None => false,
                };
                let s0 = sides[idx];
                let ghost sides_before = sides@;
                let mut k: u32 = 0;
                let ghost can = converts(player, t.tile_type, t.claim);
                while k < line.hits_per_tile && (full || sides[idx] < max)
                    invariant
                        max == line.max_changed_per_side,
                        sides@.len() == 4,
                        idx < 4,
                        s0 < max,
                        k <= line.hits_per_tile,
                        full == owned_full(t.claim, player),
                        can == converts(player, t.tile_type, t.claim),
                        full ==> !can,
                        full ==> sides@[idx as int] == s0,
                        !full ==> sides@[idx as int] == s0 + k,
                        !full ==> s0 + k <= max,
                        forall|a: int| 0 <= a < 4 && a != idx ==> #[trigger] sides@[a] == sides_before[a],
                        events@ == ev_base + if can { Seq::new(k as nat, |_i: int| ev) } else { Seq::<ColorConflictEvent>::empty() },
                        t == grid.spec_tile(p)->0,
                        changed == (before.changed > 0 || (!full && k > 0)),
                        ev == (ColorConflictEvent { from_object: id, tile_pos: p, player }),
                    decreases line.hits_per_tile - k,
                {
                    if !full {
                        sides.set(idx, sides[idx] + 1);
                        changed = true;
                    }
                    let ghost ev_before = events@;
                    let _ = convert_tile(&id, &player, p, t.tile_type, &t.claim, events);
                    proof {
                        if can {
                            assert(events@ == ev_before.push(ev));
                            assert(ev_before == ev_base + Seq::new(k as nat, |_i: int| ev));
                            assert(events@ =~= ev_base + Seq::new((k + 1) as nat, |_i: int| ev));
                        } else {
                            assert(events@ == ev_before);
                        }
                    }
                    k = k + 1;
                }
                proof {
                    let room = (max - s0) as nat;
                    if !full && line.hits_per_tile > 0 {
                        let n: nat = if line.hits_per_tile <= room { line.hits_per_tile as nat } else { room };
                        assert(k == n);
                    }
                    assert(sides@.map_values(|v: u32| v as nat) =~= line_progress(*grid, id, player, start, *line, cache@, (i + 1) as nat).sides);
                }
            }
        }
        proof {
            assert(cache@[i as int] == p);
            assert(events@ =~= base + line_progress(*grid, id, player, start, *line, cache@, (i + 1) as nat).events);
        }
        i = i + 1;
    }
    changed
}

/// Every request `convert_events` lists is for a tile of the map.
pub proof fn lemma_convert_events_on_tiles(g: TileGrid, id: ObjectId, player: usize, targets: Seq<TilePos>)
    ensures
        forall|i: int| 0 <= i < convert_events(g, id, player, targets).len()
            ==> (#[trigger] g.spec_tile(convert_events(g, id, player, targets)[i].tile_pos)) is Some,
    decreases targets.len(),
{
    if targets.len() > 0 {
        lemma_convert_events_on_tiles(g, id, player, targets.drop_last());
    }
}

/// Every request a line building makes is for a tile of the map.
pub proof fn lemma_line_events_on_tiles(
    g: TileGrid,
    id: ObjectId,
    player: usize,
    start: TilePos,
    line: Line,
    cache: Seq<TilePos>,
    n: nat,
)
    requires
        n <= cache.len(),
    ensures
        forall|i: int| 0 <= i < line_progress(g, id, player, start, line, cache, n).events.len()
            ==> (#[trigger] g.spec_tile(line_progress(g, id, player, start, line, cache, n).events[i].tile_pos)) is Some,
    decreases n,
{
    if n > 0 {
        lemma_line_events_on_tiles(g, id, player, start, line, cache, (n - 1) as nat);
        let prev = line_progress(g, id, player, start, line, cache, (n - 1) as nat);
        let cur = line_progress(g, id, player, start, line, cache, n);
        let p = cache[n - 1];
        assert forall|i: int| 0 <= i < cur.events.len() implies (#[trigger] g.spec_tile(cur.events[i].tile_pos)) is Some by {
            if i >= prev.events.len() {
                assert(cur.events[i].tile_pos == p);
            } else {
                assert(cur.events[i] == prev.events[i]);
            }
        }
    }
}

} // verus!
