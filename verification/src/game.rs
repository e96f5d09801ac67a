//! A running game: the map, the players, their buildings and abilities, and
//! the steps the simulation takes: buildings act, their requests are
//! registered, the computer players decide, the conflicts are resolved and
//! lost buildings removed; placed abilities act, the conflicts they force are
//! resolved and spent abilities removed; now and then points are paid out and
//! the end of the game checked.

use vstd::prelude::*;
use crate::abilities::{spawn_ability_result, AbilityKind, AbilitySpawn, SpawnAbility, SpawnAbilityError};
use crate::actions::{ability_placement, building_placement, placement, Actions};
use crate::buildings::BuildingTypes;
use crate::ai::run_ai;
use crate::buildings::{
    lemma_convert_events_on_tiles, lemma_line_events_on_tiles, simulate_line, simulate_pulser, simulate_scatter,
    Line, Pulser, Scatter,
};
use crate::conflicts::{update_color_conflicts, ColorConflictEvent, ColorConflictGuarantees, ColorConflicts, PlayerTileChangedCount};
use crate::end_game::{update_game_end_state, GameEndConditions, GameEnded};
use crate::grid::{in_bounds, TileGrid, TilePos, TileState, TileType, TilemapSize};
use crate::objects::{cache_object, uncache_object, ObjectId, PlacedObject, ReachShape, TileToObjectIndex};
use crate::points::{update_player_points, PlayerPoints, PlayerRecord, ABILITY_POINTS_CAP, BUILDING_POINTS_CAP};
use crate::resolve::{handle_color_conflicts, resolved_tile};
use crate::settings::{lemma_spawn_positions_on_map, player_spawn_positions, spawn_position, GameBuildSettings};
use crate::tile_lists::TileLists;

verus! {

broadcast use vstd::seq_lib::group_seq_properties;

/// A building of one of the three kinds, with its settings.
#[derive(Clone, Copy, PartialEq, Eq, Structural, Debug, Hash)]
pub enum BuildingKind {
    Pulser(Pulser),
    Scatter(Scatter),
    Line(Line),
}

/// A building on the map: who owns it, where it stands, what it is, its
/// cooldown (ticks left and ticks between activations), whether its cooldown
/// has run out, and whether it is simulated at all.
#[derive(Clone, Copy, PartialEq, Eq, Structural, Debug, Hash)]
pub struct BuildingState {
    pub id: ObjectId,
    pub player: usize,
    pub position: TilePos,
    pub kind: BuildingKind,
    pub cooldown_ticks: u32,
    pub cooldown_reset: u32,
    pub active: bool,
    pub simulate: bool,
}

/// An ability on the map: its identity, what was placed (kind, place,
/// player, activations left and cooldown), the ticks left until it is next
/// ready, whether it is ready, and whether it has run out and is to be
/// removed.
#[derive(Clone, Copy, PartialEq, Eq, Structural, Debug, Hash)]
pub struct AbilityState {
    pub id: ObjectId,
    pub spawn: AbilitySpawn,
    pub cooldown_ticks: u32,
    pub active: bool,
    pub destroy: bool,
}

/// The settings of an ability let it run: its random counts have a range.
pub open spec fn ability_can_run(kind: AbilityKind) -> bool {
    match kind {
        AbilityKind::Nuke(n) => n.min_tile_damage <= n.max_tile_damage,
        AbilityKind::Fortify(f) => f.min_tile_strengthen < f.max_tile_strengthen,
        AbilityKind::Expand(e) => e.min_tile_strengthen <= e.max_tile_strengthen,
    }
}

/// An ability stands on a tile of the map `g`, can run, and every tile of
/// its cache is a tile of the map.
pub open spec fn ability_ok(g: TileGrid, a: AbilityState, cache: Seq<TilePos>) -> bool {
    &&& g.spec_tile(a.spawn.position) is Some
    &&& ability_can_run(a.spawn.ability)
    &&& forall|k: int| 0 <= k < cache.len() ==> (#[trigger] g.spec_tile(cache[k])) is Some
}

/// A map with the same tiles as another keeps every ability in order.
pub proof fn lemma_ability_ok_kept(g1: TileGrid, g2: TileGrid, a: AbilityState, cache: Seq<TilePos>)
    requires
        ability_ok(g1, a, cache),
        forall|p: TilePos| (#[trigger] g2.spec_tile(p)) is Some <==> g1.spec_tile(p) is Some,
    ensures
        ability_ok(g2, a, cache),
{
    assert forall|k: int| 0 <= k < cache.len() implies (#[trigger] g2.spec_tile(cache[k])) is Some by {
        assert(g1.spec_tile(cache[k]) is Some);
    }
}

/// The settings of a building let it run: a pulser targets at least one
/// tile, and a scatter has tiles to pick from.
pub open spec fn building_can_run(kind: BuildingKind, cache: Seq<TilePos>) -> bool {
    match kind {
        BuildingKind::Pulser(p) => p.max_pulse_tiles > 0 && p.max_pulse_tiles + 3 <= u32::MAX,
        BuildingKind::Scatter(_) => cache.len() > 0,
        BuildingKind::Line(_) => true,
    }
}

/// A running game.
pub struct GameWorld {
    pub grid: TileGrid,
    pub conflicts: ColorConflicts,
    pub counts: PlayerTileChangedCount,
    pub players: Vec<PlayerRecord>,
    pub actions: Vec<Actions>,
    pub index: TileToObjectIndex,
    pub buildings: Vec<BuildingState>,
    /// The tiles each building affects, nearest first, at the same index.
    pub caches: Vec<Vec<TilePos>>,
    /// Ticks left until the next payout of building points.
    pub points_timer: u32,
    /// The abilities on the map, in the order they were placed.
    pub abilities: Vec<AbilityState>,
    /// The tiles each ability affects, at the same index (none for a
    /// fortify, which looks anew each time it acts).
    pub ability_caches: Vec<Vec<TilePos>>,
    /// The identity the next object placed gets.
    pub next_object_id: usize,
}

impl GameWorld {
    /// The game is in a state a step can start from: its parts are well
    /// formed, no request is pending, every player has its requests, the
    /// points are within their caps, and every building stands on a tile
    /// with settings that let it run.
    pub open spec fn wf(&self) -> bool {
        &&& self.grid.wf()
        &&& self.grid.spec_size().x <= 0xFFFF
        &&& self.conflicts.wf()
        &&& self.conflicts.conflicts.spec_keys().len() == 0
        &&& self.index.wf()
        &&& self.players@.len() == self.actions@.len()
        &&& forall|j: int| 0 <= j < self.players@.len() ==> {
            &&& #[trigger] self.players@[j].points.building_points <= BUILDING_POINTS_CAP
            &&& self.players@[j].points.ability_points <= ABILITY_POINTS_CAP
        }
        &&& self.conflicts.guaranteed_conflicts.spec_keys().len() == 0
        &&& self.buildings@.len() == self.caches@.len()
        &&& forall|i: int| 0 <= i < self.buildings@.len() ==> {
            &&& (#[trigger] self.grid.spec_tile(self.buildings@[i].position)) is Some
            &&& building_can_run(self.buildings@[i].kind, self.caches@[i]@)
        }
        &&& self.abilities@.len() == self.ability_caches@.len()
        &&& forall|i: int| 0 <= i < self.abilities@.len() ==> ability_ok(self.grid, #[trigger] self.abilities@[i], self.ability_caches@[i]@)
    }
}

/// The starting pulser of every player: strength 7, three tiles a pulse,
/// ready at once and then every 20 ticks.
pub open spec fn starting_building(map_size: u32, player: usize) -> BuildingState {
    BuildingState {
        id: ObjectId { id: player },
        player,
        position: spawn_position(map_size, player),
        kind: BuildingKind::Pulser(Pulser { strength: 7, max_pulse_tiles: 3 }),
        cooldown_ticks: 0,
        cooldown_reset: 20,
        active: false,
        simulate: true,
    }
}

/// A tile where one of the starting buildings of a game with `settings`
/// stands.
pub open spec fn starting_tile_taken(settings: GameBuildSettings, p: TilePos) -> bool {
    exists|k: int| 0 <= k <= settings.enemy_count && #[trigger] spawn_position(settings.map_size, k as usize) == p
}

/// Starts a game with the given settings: a square map of colourable tiles,
/// those of the starting buildings holding a building; four players (the
/// human player 0 and three computer players), each with 50 building points
/// and nothing requested; and a starting pulser for the human player and
/// each enemy, at the players' starting positions.
pub fn new_game(settings: &GameBuildSettings) -> (w: GameWorld)
    requires
        settings.in_range(),
    ensures
        w.wf(),
        w.grid.spec_size() == (TilemapSize { x: settings.map_size, y: settings.map_size }),
        forall|p: TilePos| #[trigger] w.grid.spec_tile(p) is Some <==> in_bounds(p, w.grid.spec_size()),
        forall|p: TilePos| in_bounds(p, w.grid.spec_size()) ==> (#[trigger] w.grid.spec_tile(p))->0.claim is None,
        forall|p: TilePos| #[trigger] w.grid.spec_tile(p) == if in_bounds(p, w.grid.spec_size()) {
            Some(TileState { has_building: starting_tile_taken(*settings, p), ..crate::grid::fresh_tile(TileType::Colorable) })
        } else {
            None
        },
        w.players@.len() == 4,
        w.actions@.len() == 4,
        forall|j: int| 0 <= j < 4 ==> #[trigger] w.actions@[j] == crate::actions::no_requests(),
        forall|j: int| 0 <= j < 4 ==> #[trigger] w.players@[j] == (PlayerRecord {
            id: j as usize,
            points: PlayerPoints { building_points: 50, ability_points: 0 },
        }),
        w.buildings@.len() == settings.enemy_count + 1,
        forall|i: int| 0 <= i < w.buildings@.len() ==> #[trigger] w.buildings@[i] == starting_building(settings.map_size, i as usize),
        w.points_timer == 0,
{
    let size = TilemapSize { x: settings.map_size, y: settings.map_size };
    proof {
        assert(size.x * size.y <= 10000) by (nonlinear_arith)
            requires
                size.x <= 100,
                size.y <= 100,
        ;
    }
    let mut grid = TileGrid::new_filled(size, TileType::Colorable);
    let mut players: Vec<PlayerRecord> = Vec::new();
    let mut actions: Vec<Actions> = Vec::new();
    let mut id: usize = 0;
    while id < 4
        invariant
            id <= 4,
            players@.len() == id,
            actions@.len() == id,
            forall|j: int| 0 <= j < id ==> #[trigger] actions@[j] == crate::actions::no_requests(),
            forall|j: int| 0 <= j < id ==> #[trigger] players@[j] == (PlayerRecord {
                id: j as usize,
                points: PlayerPoints { building_points: 50, ability_points: 0 },
            }),
        decreases 4 - id,
    {
        players.push(PlayerRecord { id, points: PlayerPoints { building_points: 50, ability_points: 0 } });
        actions.push(Actions::default());
        id = id + 1;
    }
    let mut index: TileToObjectIndex = TileLists::new();
    let positions = player_spawn_positions(settings);
    let mut buildings: Vec<BuildingState> = Vec::new();
    let mut caches: Vec<Vec<TilePos>> = Vec::new();
    let mut i: usize = 0;
    while i < positions.len()
        invariant
            grid.wf(),
            grid.spec_size() == size,
            size == (TilemapSize { x: settings.map_size, y: settings.map_size }),
            settings.in_range(),
            forall|p: TilePos| #[trigger] grid.spec_tile(p) == if in_bounds(p, size) {
                Some(crate::grid::fresh_tile(TileType::Colorable))
            } else {
                None
            },
            positions@.len() == settings.enemy_count + 1,
            forall|k: int| 0 <= k < positions@.len() ==> #[trigger] positions@[k] == spawn_position(settings.map_size, k as usize),
            index.wf(),
            i <= positions@.len(),
            buildings@.len() == i,
            caches@.len() == i,
            forall|k: int| 0 <= k < i ==> #[trigger] buildings@[k] == starting_building(settings.map_size, k as usize),
        decreases positions@.len() - i,
    {
        let pos = positions[i];
        proof {
            lemma_spawn_positions_on_map(settings.map_size, i, i);
            assert(pos == spawn_position(settings.map_size, i));
        }
        let id = ObjectId { id: i };
        let cache = cache_object(&grid, &mut index, id, pos, 7, ReachShape::Spread);
        buildings.push(BuildingState {
            id,
            player: i,
            position: pos,
            kind: BuildingKind::Pulser(Pulser { strength: 7, max_pulse_tiles: 3 }),
            cooldown_ticks: 0,
            cooldown_reset: 20,
            active: false,
            simulate: true,
        });
        caches.push(cache.cache);
        i = i + 1;
    }
    let ghost fresh = grid;
    let mut k: usize = 0;
    while k < positions.len()
        invariant
            grid.wf(),
            grid.spec_size() == size,
            size == (TilemapSize { x: settings.map_size, y: settings.map_size }),
            settings.in_range(),
            positions@.len() == settings.enemy_count + 1,
            forall|j: int| 0 <= j < positions@.len() ==> #[trigger] positions@[j] == spawn_position(settings.map_size, j as usize),
            k <= positions@.len(),
            forall|p: TilePos| #[trigger] grid.spec_tile(p) == if in_bounds(p, size) {
                Some(TileState {
                    has_building: exists|j: int| 0 <= j < k && #[trigger] positions@[j] == p,
                    ..crate::grid::fresh_tile(TileType::Colorable)
                })
            } else {
                None
            },
        decreases positions@.len() - k,
    {
        let pos = positions[k];
        proof {
            lemma_spawn_positions_on_map(settings.map_size, k, k);
        }
        let ghost before = grid;
        grid.set_tile(pos, Some(TileState { tile_type: TileType::Colorable, claim: None, has_building: true, has_ability: false }));
        proof {
            assert forall|p: TilePos| #[trigger] grid.spec_tile(p) == if in_bounds(p, size) {
                Some(TileState {
                    has_building: exists|j: int| 0 <= j < k + 1 && #[trigger] positions@[j] == p,
                    ..crate::grid::fresh_tile(TileType::Colorable)
                })
            } else {
                None
            } by {
                if p == pos {
                    assert(positions@[k as int] == p);
                } else {
                    assert(before.spec_tile(p) == grid.spec_tile(p));
                    if exists|j: int| 0 <= j < k + 1 && #[trigger] positions@[j] == p {
                        let j = choose|j: int| 0 <= j < k + 1 && #[trigger] positions@[j] == p;
                        assert(j < k);
                    }
                }
            }
        }
        k = k + 1;
    }
    proof {
        assert forall|p: TilePos| #[trigger] grid.spec_tile(p) == if in_bounds(p, size) {
            Some(TileState { has_building: starting_tile_taken(*settings, p), ..crate::grid::fresh_tile(TileType::Colorable) })
        } else {
            None
        } by {
            if exists|j: int| 0 <= j < positions@.len() && #[trigger] positions@[j] == p {
                let j = choose|j: int| 0 <= j < positions@.len() && #[trigger] positions@[j] == p;
                assert(spawn_position(settings.map_size, j as usize) == p);
            }
            if starting_tile_taken(*settings, p) {
                let j = choose|j: int| 0 <= j <= settings.enemy_count && #[trigger] spawn_position(settings.map_size, j as usize) == p;
                assert(positions@[j] == p);
            }
        }
    }
    let w = GameWorld {
        grid,
        conflicts: ColorConflicts::new(),
        counts: PlayerTileChangedCount { player_gained_tiles: 0, player_lost_tiles: 0 },
        players,
        actions,
        index,
        buildings,
        caches,
        points_timer: 0,
        abilities: Vec::new(),
        ability_caches: Vec::new(),
        next_object_id: settings.enemy_count + 1,
    };
    proof {
        assert forall|i: int| 0 <= i < w.buildings@.len() implies {
            &&& (#[trigger] w.grid.spec_tile(w.buildings@[i].position)) is Some
            &&& building_can_run(w.buildings@[i].kind, w.caches@[i]@)
        } by {
            lemma_spawn_positions_on_map(settings.map_size, i as usize, i as usize);
        }
    }
    w
}

/// A building after one tick of its cooldown: one whose cooldown has run out
/// waits until it has acted; otherwise the cooldown counts down, and when it
/// runs out the building becomes ready and the cooldown starts again.
pub open spec fn ticked(b: BuildingState) -> BuildingState {
    if b.active {
        b
    } else if b.cooldown_ticks <= 1 {
        BuildingState { active: true, cooldown_ticks: b.cooldown_reset, ..b }
    } else {
        BuildingState { cooldown_ticks: (b.cooldown_ticks - 1) as u32, ..b }
    }
}

/// The buildings after one tick of their cooldowns.
pub open spec fn ticked_all(bs: Seq<BuildingState>) -> Seq<BuildingState> {
    bs.map_values(|b: BuildingState| ticked(b))
}

impl GameWorld {
    /// Counts down the cooldown of every building by one tick.
    pub fn update_building_timers(&mut self)
        requires
            old(self).wf(),
        ensures
            final(self).wf(),
            final(self).buildings@.len() == old(self).buildings@.len(),
            forall|i: int| 0 <= i < final(self).buildings@.len() ==> #[trigger] final(self).buildings@[i] == ticked(
                old(self).buildings@[i],
            ),
            final(self).grid == old(self).grid,
            final(self).conflicts == old(self).conflicts,
            final(self).players@ == old(self).players@,
            final(self).actions@ == old(self).actions@,
            final(self).caches@ == old(self).caches@,
            final(self).index == old(self).index,
            final(self).counts == old(self).counts,
            final(self).points_timer == old(self).points_timer,
    {
        let ghost start = self.buildings@;
        let mut i: usize = 0;
        while i < self.buildings.len()
            invariant
                self.wf(),
                self.buildings@.len() == start.len(),
                i <= start.len(),
                forall|k: int| 0 <= k < i ==> #[trigger] self.buildings@[k] == ticked(start[k]),
                forall|k: int| i <= k < start.len() ==> #[trigger] self.buildings@[k] == start[k],
                self.grid == old(self).grid,
                self.conflicts == old(self).conflicts,
                self.players@ == old(self).players@,
                self.actions@ == old(self).actions@,
                self.caches@ == old(self).caches@,
                self.index == old(self).index,
                self.counts == old(self).counts,
                self.points_timer == old(self).points_timer,
                start == old(self).buildings@,
            decreases start.len() - i,
        {
            let mut b = self.buildings[i];
            if !b.active {
                if b.cooldown_ticks <= 1 {
                    b.active = true;
                    b.cooldown_ticks = b.cooldown_reset;
                } else {
                    b.cooldown_ticks = b.cooldown_ticks - 1;
                }
            }
            let ghost before = self.buildings@;
            self.buildings.set(i, b);
            proof {
                assert forall|k: int| 0 <= k < self.buildings@.len() implies {
                    &&& (#[trigger] self.grid.spec_tile(self.buildings@[k].position)) is Some
                    &&& building_can_run(self.buildings@[k].kind, self.caches@[k]@)
                } by {
                    assert(self.grid.spec_tile(before[k].position) is Some);
                }
            }
            i = i + 1;
        }
    }
}

/// What stays the same of a building while the game runs: its identity,
/// owner, place and kind.
pub open spec fn identity_of(b: BuildingState) -> (ObjectId, usize, TilePos, BuildingKind) {
    (b.id, b.player, b.position, b.kind)
}

/// Every building of `later` is one of `earlier`.
pub open spec fn buildings_from(later: Seq<BuildingState>, earlier: Seq<BuildingState>) -> bool {
    forall|k: int| 0 <= k < later.len() ==> earlier.map_values(|b: BuildingState| identity_of(b)).contains(
        identity_of(#[trigger] later[k]),
    )
}

/// The buildings kept from a list of states of the same buildings are
/// among those buildings.
proof fn lemma_kept_buildings_from(mid: Seq<BuildingState>, earlier: Seq<BuildingState>, g: TileGrid)
    requires
        mid.len() == earlier.len(),
        forall|j: int| 0 <= j < mid.len() ==> identity_of(#[trigger] mid[j]) == identity_of(earlier[j]),
    ensures
        buildings_from(mid.filter(kept_on(g)), earlier),
{
    let kept = mid.filter(kept_on(g));
    let ids = earlier.map_values(|b: BuildingState| identity_of(b));
    assert forall|k: int| 0 <= k < kept.len() implies ids.contains(identity_of(#[trigger] kept[k])) by {
        let b = kept[k];
        assert(kept.contains(b));
        mid.lemma_filter_contains_rev(kept_on(g), b);
        let j = choose|j: int| 0 <= j < mid.len() && mid[j] == b;
        assert(identity_of(mid[j]) == identity_of(earlier[j]));
        assert(ids[j] == identity_of(b));
    }
}

/// A building takes part in a simulation pass: its cooldown has run out and
/// it is simulated.
pub open spec fn runs(b: BuildingState) -> bool {
    b.active && b.simulate
}

/// The pass in which a building of the given kind acts: pulsers first, then
/// lines, then scatters.
pub open spec fn kind_pass(kind: BuildingKind) -> int {
    match kind {
        BuildingKind::Pulser(_) => 0,
        BuildingKind::Line(_) => 1,
        BuildingKind::Scatter(_) => 2,
    }
}

/// A building after a simulation pass that lets the buildings of pass
/// `pass` act: one of that kind that is ready and simulated acted, so it is
/// ready no more, and its `simulate` flag is whatever the pass left; every
/// other building is left as it was.
pub open spec fn acted_in_pass(before: BuildingState, after: BuildingState, pass: int) -> bool {
    after == if runs(before) && kind_pass(before.kind) == pass {
        BuildingState { active: false, simulate: after.simulate, ..before }
    } else {
        before
    }
}

/// One turn of the building `b`, whose cache is `cache`, on the map `g`: the
/// requests `chunk` it makes and whether it stays simulated (`keep`). A
/// pulser asks for its trimmed candidates (see `simulate_pulser`), a line
/// for what its arms reach (see `simulate_line`), and a scatter for the
/// tiles of its random picks from its cache (see `simulate_scatter`); each
/// stays simulated only when it asked for a tile.
pub open spec fn building_turn_ok(
    g: TileGrid,
    b: BuildingState,
    cache: Seq<TilePos>,
    chunk: Seq<ColorConflictEvent>,
    keep: bool,
) -> bool {
    match b.kind {
        BuildingKind::Pulser(p) => exists|targets: Seq<TilePos>|
            crate::buildings::trimmed_from(
                crate::buildings::pulse_candidates(g, b.player, cache, (p.max_pulse_tiles + 3) as nat, cache.len()),
                targets,
                p.max_pulse_tiles as nat,
            ) && chunk == crate::buildings::convert_events(g, b.id, b.player, targets) && keep == (chunk.len() > 0),
        BuildingKind::Line(l) => chunk == crate::buildings::line_progress(g, b.id, b.player, b.position, l, cache, cache.len()).events
            && keep == (crate::buildings::line_progress(g, b.id, b.player, b.position, l, cache, cache.len()).changed > 0),
        BuildingKind::Scatter(sc) => exists|picked: Seq<TilePos>|
            picked.len() == sc.scatter_amount + 1 && (forall|k: int| 0 <= k < picked.len() ==> cache.contains(#[trigger] picked[k]))
                && chunk == crate::buildings::convert_events(g, b.id, b.player, picked) && keep == (chunk.len() > 0),
    }
}

/// The requests of a list of turns, one after the other.
pub open spec fn concat_events(chunks: Seq<Seq<ColorConflictEvent>>) -> Seq<ColorConflictEvent>
    decreases chunks.len(),
{
    if chunks.len() == 0 {
        Seq::empty()
    } else {
        concat_events(chunks.drop_last()) + chunks.last()
    }
}

/// The requests `chunks` of a simulation pass `pass` over the buildings
/// `before` with caches `caches` on the map `g`, `after` being the buildings
/// after it: one list per building, that of a building of the pass's kind
/// that is ready and simulated being its turn (see `building_turn_ok`), the
/// others empty.
pub open spec fn pass_chunks_ok(
    g: TileGrid,
    before: Seq<BuildingState>,
    after: Seq<BuildingState>,
    caches: Seq<Vec<TilePos>>,
    pass: int,
    chunks: Seq<Seq<ColorConflictEvent>>,
) -> bool {
    &&& chunks.len() == before.len()
    &&& forall|k: int| 0 <= k < chunks.len() ==> if runs(before[k]) && kind_pass(before[k].kind) == pass {
        building_turn_ok(g, before[k], caches[k]@, #[trigger] chunks[k], after[k].simulate)
    } else {
        chunks[k].len() == 0
    }
}

/// The turns among `chunks` of the buildings of pass `pass` in `before`,
/// the others left empty.
pub open spec fn pass_part(before: Seq<BuildingState>, chunks: Seq<Seq<ColorConflictEvent>>, pass: int) -> Seq<
    Seq<ColorConflictEvent>,
> {
    Seq::new(chunks.len(), |k: int| if kind_pass(before[k].kind) == pass { chunks[k] } else { Seq::empty() })
}

/// The requests of the buildings' turns `chunks` in the order they are made:
/// the pulsers' first, then the lines', then the scatters', each kind in list
/// order.
pub open spec fn turns_events(before: Seq<BuildingState>, chunks: Seq<Seq<ColorConflictEvent>>) -> Seq<ColorConflictEvent> {
    concat_events(pass_part(before, chunks, 0)) + concat_events(pass_part(before, chunks, 1)) + concat_events(
        pass_part(before, chunks, 2),
    )
}

/// The turns `chunks` of the buildings `before` with caches `caches` on the
/// map `g`, `after` being the buildings after them: a building that is ready
/// and simulated takes its turn (see `building_turn_ok`); the others make
/// no request.
pub open spec fn turns_ok(
    g: TileGrid,
    before: Seq<BuildingState>,
    after: Seq<BuildingState>,
    caches: Seq<Vec<TilePos>>,
    chunks: Seq<Seq<ColorConflictEvent>>,
) -> bool {
    &&& chunks.len() == before.len()
    &&& forall|k: int| 0 <= k < chunks.len() ==> if runs(before[k]) {
        building_turn_ok(g, before[k], caches[k]@, #[trigger] chunks[k], after[k].simulate)
    } else {
        chunks[k].len() == 0
    }
}

impl GameWorld {
    /// Lets every building of the kind of pass `pass` that is ready and
    /// simulated act, in list order, appending its requests to `events`. One
    /// that acted is ready no more, and stays simulated only when it asked
    /// for a tile.
    fn simulate_pass(&mut self, pass: usize, events: &mut Vec<ColorConflictEvent>)
        requires
            old(self).wf(),
            pass < 3,
            forall|k: int| 0 <= k < old(events)@.len() ==> (#[trigger] old(self).grid.spec_tile(old(events)@[k].tile_pos)) is Some,
        ensures
            final(self).wf(),
            forall|k: int| 0 <= k < final(events)@.len() ==> (#[trigger] final(self).grid.spec_tile(final(events)@[k].tile_pos)) is Some,
            final(self).buildings@.len() == old(self).buildings@.len(),
            forall|k: int| 0 <= k < final(self).buildings@.len() ==> acted_in_pass(
                old(self).buildings@[k],
                #[trigger] final(self).buildings@[k],
                pass as int,
            ),
            exists|chunks: Seq<Seq<ColorConflictEvent>>|
                pass_chunks_ok(old(self).grid, old(self).buildings@, final(self).buildings@, old(self).caches@, pass as int, chunks)
                    && final(events)@ == old(events)@ + concat_events(chunks),
            final(self).grid == old(self).grid,
            final(self).conflicts == old(self).conflicts,
            final(self).players@ == old(self).players@,
            final(self).actions@ == old(self).actions@,
            final(self).caches@ == old(self).caches@,
            final(self).index == old(self).index,
            final(self).counts == old(self).counts,
            final(self).points_timer == old(self).points_timer,
            final(self).abilities@ == old(self).abilities@,
    {
        let ghost start = self.buildings@;
        let ghost ev0 = events@;
        let ghost mut chunks: Seq<Seq<ColorConflictEvent>> = Seq::empty();
        let mut i: usize = 0;
        while i < self.buildings.len()
            invariant
                self.wf(),
                pass < 3,
                i <= start.len(),
                self.buildings@.len() == start.len(),
                start == old(self).buildings@,
                ev0 == old(events)@,
                forall|k: int| 0 <= k < events@.len() ==> (#[trigger] self.grid.spec_tile(events@[k].tile_pos)) is Some,
                forall|k: int| 0 <= k < start.len() ==> #[trigger] self.buildings@[k] == if runs(start[k]) && kind_pass(
                    start[k].kind,
                ) == pass && k < i {
                    BuildingState { active: false, simulate: self.buildings@[k].simulate, ..start[k] }
                } else {
                    start[k]
                },
                chunks.len() == i,
                events@ == ev0 + concat_events(chunks),
                forall|k: int| 0 <= k < i ==> if runs(start[k]) && kind_pass(start[k].kind) == pass {
                    building_turn_ok(self.grid, start[k], self.caches@[k]@, #[trigger] chunks[k], self.buildings@[k].simulate)
                } else {
                    chunks[k].len() == 0
                },
                self.grid == old(self).grid,
                self.conflicts == old(self).conflicts,
                self.players@ == old(self).players@,
                self.actions@ == old(self).actions@,
                self.caches@ == old(self).caches@,
                self.index == old(self).index,
                self.counts == old(self).counts,
                self.points_timer == old(self).points_timer,
                self.abilities@ == old(self).abilities@,
            decreases start.len() - i,
        {
            let b = self.buildings[i];
            proof {
                assert((self.grid.spec_tile(self.buildings@[i as int].position)) is Some);
                assert(building_can_run(b.kind, self.caches@[i as int]@));
            }
            let ghost before = events@;
            let ghost bs_before = self.buildings@;
            if b.active && b.simulate {
                let ran: Option<bool> = match b.kind {
                    BuildingKind::Pulser(p) => {
                        if pass == 0 {
                            let keep = simulate_pulser(&self.grid, b.id, b.player, &p, &self.caches[i], events);
                            proof {
                                let targets = choose|targets: Seq<TilePos>| crate::buildings::trimmed_from(
                                    crate::buildings::pulse_candidates(
                                        self.grid,
                                        b.player,
                                        self.caches@[i as int]@,
                                        (p.max_pulse_tiles + 3) as nat,
                                        self.caches@[i as int]@.len(),
                                    ),
                                    targets,
                                    p.max_pulse_tiles as nat,
                                ) && events@ == before + crate::buildings::convert_events(self.grid, b.id, b.player, targets)
                                    && keep == (crate::buildings::convert_events(self.grid, b.id, b.player, targets).len() > 0);
                                lemma_convert_events_on_tiles(self.grid, b.id, b.player, targets);
                                let c = events@.subrange(before.len() as int, events@.len() as int);
                                assert(c =~= crate::buildings::convert_events(self.grid, b.id, b.player, targets));
                                assert(building_turn_ok(self.grid, b, self.caches@[i as int]@, c, keep));
                            }
                            Some(keep)
                        } else {
                            None
                        }
                    },
                    BuildingKind::Line(l) => {
                        if pass == 1 {
                            let keep = simulate_line(&self.grid, b.id, b.player, b.position, &l, &self.caches[i], events);
                            proof {
                                lemma_line_events_on_tiles(
                                    self.grid,
                                    b.id,
                                    b.player,
                                    b.position,
                                    l,
                                    self.caches@[i as int]@,
                                    self.caches@[i as int]@.len(),
                                );
                                let c = events@.subrange(before.len() as int, events@.len() as int);
                                assert(c =~= crate::buildings::line_progress(
                                    self.grid,
                                    b.id,
                                    b.player,
                                    b.position,
                                    l,
                                    self.caches@[i as int]@,
                                    self.caches@[i as int]@.len(),
                                ).events);
                                assert(building_turn_ok(self.grid, b, self.caches@[i as int]@, c, keep));
                            }
                            Some(keep)
                        } else {
                            None
                        }
                    },
                    BuildingKind::Scatter(sc) => {
                        if pass == 2 {
                            let keep = simulate_scatter(&self.grid, b.id, b.player, &sc, &self.caches[i], events);
                            proof {
                                let picked = choose|picked: Seq<TilePos>| picked.len() == sc.scatter_amount + 1 && (forall|k: int|
                                    0 <= k < picked.len() ==> self.caches@[i as int]@.contains(#[trigger] picked[k]))
                                    && events@ == before + crate::buildings::convert_events(self.grid, b.id, b.player, picked)
                                    && keep == (crate::buildings::convert_events(self.grid, b.id, b.player, picked).len() > 0);
                                lemma_convert_events_on_tiles(self.grid, b.id, b.player, picked);
                                let c = events@.subrange(before.len() as int, events@.len() as int);
                                assert(c =~= crate::buildings::convert_events(self.grid, b.id, b.player, picked));
                                assert(building_turn_ok(self.grid, b, self.caches@[i as int]@, c, keep));
                            }
                            Some(keep)
                        } else {
                            None
                        }
                    },
                };
                match ran {
                    Some(keep) => {
                        self.buildings.set(i, BuildingState { active: false, simulate: keep, ..b });
                    },
                    None => {},
                }
            }
            proof {
                let c = events@.subrange(before.len() as int, events@.len() as int);
                assert(before.len() <= events@.len());
                assert(events@ =~= before + c);
                let old_chunks = chunks;
                chunks = chunks.push(c);
                assert(chunks.drop_last() =~= old_chunks);
                assert(events@ =~= ev0 + concat_events(chunks));
                assert(b == start[i as int]);
                if !(runs(b) && kind_pass(b.kind) == pass) {
                    assert(events@ == before);
                    assert(c.len() == 0);
                }
                assert forall|k: int| 0 <= k < i + 1 implies if runs(start[k]) && kind_pass(start[k].kind) == pass {
                    building_turn_ok(self.grid, start[k], self.caches@[k]@, #[trigger] chunks[k], self.buildings@[k].simulate)
                } else {
                    chunks[k].len() == 0
                } by {
                    if k < i {
                        assert(chunks[k] == old_chunks[k]);
                        assert(self.buildings@[k] == bs_before[k]);
                    }
                }
            }
            i = i + 1;
        }
        proof {
            assert(pass_chunks_ok(self.grid, start, self.buildings@, self.caches@, pass as int, chunks));
        }
    }

    /// Lets every pulser that is ready and simulated act, in list order,
    /// appending its requests to `events` (see `simulate_pulser`).
    pub fn simulate_pulsers_from_cache(&mut self, events: &mut Vec<ColorConflictEvent>)
        requires
            old(self).wf(),
            forall|k: int| 0 <= k < old(events)@.len() ==> (#[trigger] old(self).grid.spec_tile(old(events)@[k].tile_pos)) is Some,
        ensures
            final(self).wf(),
            forall|k: int| 0 <= k < final(events)@.len() ==> (#[trigger] final(self).grid.spec_tile(final(events)@[k].tile_pos)) is Some,
            final(self).buildings@.len() == old(self).buildings@.len(),
            forall|k: int| 0 <= k < final(self).buildings@.len() ==> acted_in_pass(
                old(self).buildings@[k],
                #[trigger] final(self).buildings@[k],
                0,
            ),
            exists|chunks: Seq<Seq<ColorConflictEvent>>|
                pass_chunks_ok(old(self).grid, old(self).buildings@, final(self).buildings@, old(self).caches@, 0, chunks)
                    && final(events)@ == old(events)@ + concat_events(chunks),
            final(self).grid == old(self).grid,
            final(self).conflicts == old(self).conflicts,
            final(self).players@ == old(self).players@,
            final(self).actions@ == old(self).actions@,
            final(self).caches@ == old(self).caches@,
            final(self).index == old(self).index,
            final(self).counts == old(self).counts,
            final(self).points_timer == old(self).points_timer,
            final(self).abilities@ == old(self).abilities@,
    {
        self.simulate_pass(0, events);
    }

    /// Lets every line that is ready and simulated act, in list order,
    /// appending its requests to `events` (see `simulate_line`).
    pub fn simulate_lines_from_cache(&mut self, events: &mut Vec<ColorConflictEvent>)
        requires
            old(self).wf(),
            forall|k: int| 0 <= k < old(events)@.len() ==> (#[trigger] old(self).grid.spec_tile(old(events)@[k].tile_pos)) is Some,
        ensures
            final(self).wf(),
            forall|k: int| 0 <= k < final(events)@.len() ==> (#[trigger] final(self).grid.spec_tile(final(events)@[k].tile_pos)) is Some,
            final(self).buildings@.len() == old(self).buildings@.len(),
            forall|k: int| 0 <= k < final(self).buildings@.len() ==> acted_in_pass(
                old(self).buildings@[k],
                #[trigger] final(self).buildings@[k],
                1,
            ),
            exists|chunks: Seq<Seq<ColorConflictEvent>>|
                pass_chunks_ok(old(self).grid, old(self).buildings@, final(self).buildings@, old(self).caches@, 1, chunks)
                    && final(events)@ == old(events)@ + concat_events(chunks),
            final(self).grid == old(self).grid,
            final(self).conflicts == old(self).conflicts,
            final(self).players@ == old(self).players@,
            final(self).actions@ == old(self).actions@,
            final(self).caches@ == old(self).caches@,
            final(self).index == old(self).index,
            final(self).counts == old(self).counts,
            final(self).points_timer == old(self).points_timer,
            final(self).abilities@ == old(self).abilities@,
    {
        self.simulate_pass(1, events);
    }

    /// Lets every scatter that is ready and simulated act, in list order,
    /// appending its requests to `events` (see `simulate_scatter`).
    pub fn simulate_scatter_from_cache(&mut self, events: &mut Vec<ColorConflictEvent>)
        requires
            old(self).wf(),
            forall|k: int| 0 <= k < old(events)@.len() ==> (#[trigger] old(self).grid.spec_tile(old(events)@[k].tile_pos)) is Some,
        ensures
            final(self).wf(),
            forall|k: int| 0 <= k < final(events)@.len() ==> (#[trigger] final(self).grid.spec_tile(final(events)@[k].tile_pos)) is Some,
            final(self).buildings@.len() == old(self).buildings@.len(),
            forall|k: int| 0 <= k < final(self).buildings@.len() ==> acted_in_pass(
                old(self).buildings@[k],
                #[trigger] final(self).buildings@[k],
                2,
            ),
            exists|chunks: Seq<Seq<ColorConflictEvent>>|
                pass_chunks_ok(old(self).grid, old(self).buildings@, final(self).buildings@, old(self).caches@, 2, chunks)
                    && final(events)@ == old(events)@ + concat_events(chunks),
            final(self).grid == old(self).grid,
            final(self).conflicts == old(self).conflicts,
            final(self).players@ == old(self).players@,
            final(self).actions@ == old(self).actions@,
            final(self).caches@ == old(self).caches@,
            final(self).index == old(self).index,
            final(self).counts == old(self).counts,
            final(self).points_timer == old(self).points_timer,
            final(self).abilities@ == old(self).abilities@,
    {
        self.simulate_pass(2, events);
    }

    /// Lets every building that is ready and simulated act, pulsers first,
    /// then lines, then scatters, each kind in list order, and returns their
    /// requests in that order. A building that acted is ready no more, and
    /// stays simulated only when it asked for a tile; every other building
    /// is left as it was. Every request is for a tile of the map.
    pub fn simulate_buildings(&mut self) -> (events: Vec<ColorConflictEvent>)
        requires
            old(self).wf(),
        ensures
            final(self).wf(),
            forall|i: int| 0 <= i < events@.len() ==> (#[trigger] final(self).grid.spec_tile(events@[i].tile_pos)) is Some,
            final(self).buildings@.len() == old(self).buildings@.len(),
            forall|i: int| 0 <= i < final(self).buildings@.len() ==> #[trigger] final(self).buildings@[i] == if runs(
                old(self).buildings@[i],
            ) {
                BuildingState { active: false, simulate: final(self).buildings@[i].simulate, ..old(self).buildings@[i] }
            } else {
                old(self).buildings@[i]
            },
            exists|chunks: Seq<Seq<ColorConflictEvent>>|
                turns_ok(old(self).grid, old(self).buildings@, final(self).buildings@, old(self).caches@, chunks) && events@
                    == turns_events(old(self).buildings@, chunks),
            final(self).grid == old(self).grid,
            final(self).conflicts == old(self).conflicts,
            final(self).players@ == old(self).players@,
            final(self).actions@ == old(self).actions@,
            final(self).caches@ == old(self).caches@,
            final(self).index == old(self).index,
            final(self).counts == old(self).counts,
            final(self).points_timer == old(self).points_timer,
            final(self).abilities@ == old(self).abilities@,
    {
        let mut events: Vec<ColorConflictEvent> = Vec::new();
        let ghost b0 = self.buildings@;
        let ghost g = self.grid;
        let ghost cs = self.caches@;
        self.simulate_pulsers_from_cache(&mut events);
        let ghost b1 = self.buildings@;
        let ghost e1 = events@;
        self.simulate_lines_from_cache(&mut events);
        let ghost b2 = self.buildings@;
        let ghost e2 = events@;
        self.simulate_scatter_from_cache(&mut events);
        proof {
            let b3 = self.buildings@;
            let c0 = choose|c: Seq<Seq<ColorConflictEvent>>| pass_chunks_ok(g, b0, b1, cs, 0, c) && e1 == Seq::<ColorConflictEvent>::empty() + concat_events(c);
            let c1 = choose|c: Seq<Seq<ColorConflictEvent>>| pass_chunks_ok(g, b1, b2, cs, 1, c) && e2 == e1 + concat_events(c);
            let c2 = choose|c: Seq<Seq<ColorConflictEvent>>| pass_chunks_ok(g, b2, b3, cs, 2, c) && events@ == e2 + concat_events(c);
            let chunks = Seq::new(
                b0.len(),
                |k: int| if kind_pass(b0[k].kind) == 0 {
                    c0[k]
                } else if kind_pass(b0[k].kind) == 1 {
                    c1[k]
                } else {
                    c2[k]
                },
            );
            assert forall|k: int| 0 <= k < b0.len() implies {
                &&& pass_part(b0, chunks, 0)[k] == c0[k]
                &&& pass_part(b0, chunks, 1)[k] == c1[k]
                &&& pass_part(b0, chunks, 2)[k] == c2[k]
                &&& if runs(b0[k]) {
                    building_turn_ok(g, b0[k], cs[k]@, #[trigger] chunks[k], b3[k].simulate)
                } else {
                    chunks[k].len() == 0
                }
            } by {
                assert(acted_in_pass(b0[k], b1[k], 0));
                assert(acted_in_pass(b1[k], b2[k], 1));
                assert(acted_in_pass(b2[k], b3[k], 2));
                assert(if runs(b0[k]) && kind_pass(b0[k].kind) == 0 {
                    building_turn_ok(g, b0[k], cs[k]@, c0[k], b1[k].simulate)
                } else {
                    c0[k].len() == 0
                });
                assert(if runs(b1[k]) && kind_pass(b1[k].kind) == 1 {
                    building_turn_ok(g, b1[k], cs[k]@, c1[k], b2[k].simulate)
                } else {
                    c1[k].len() == 0
                });
                assert(if runs(b2[k]) && kind_pass(b2[k].kind) == 2 {
                    building_turn_ok(g, b2[k], cs[k]@, c2[k], b3[k].simulate)
                } else {
                    c2[k].len() == 0
                });
                if kind_pass(b0[k].kind) != 0 {
                    assert(c0[k] =~= Seq::<ColorConflictEvent>::empty());
                }
                if kind_pass(b0[k].kind) != 1 {
                    assert(c1[k] =~= Seq::<ColorConflictEvent>::empty());
                }
                if kind_pass(b0[k].kind) != 2 {
                    assert(c2[k] =~= Seq::<ColorConflictEvent>::empty());
                }
            }
            assert(pass_part(b0, chunks, 0) =~= c0);
            assert(pass_part(b0, chunks, 1) =~= c1);
            assert(pass_part(b0, chunks, 2) =~= c2);
            assert(events@ =~= turns_events(b0, chunks));
            assert(turns_ok(g, b0, b3, cs, chunks));
        }
        proof {
            assert forall|i: int| 0 <= i < self.buildings@.len() implies #[trigger] self.buildings@[i] == if runs(b0[i]) {
                BuildingState { active: false, simulate: self.buildings@[i].simulate, ..b0[i] }
            } else {
                b0[i]
            } by {
                assert(acted_in_pass(b0[i], b1[i], 0));
                assert(acted_in_pass(b1[i], b2[i], 1));
                assert(acted_in_pass(b2[i], self.buildings@[i], 2));
            }
        }
        events
    }

    /// Puts every building whose id is among `wakes` back into simulation.
    pub fn wake_buildings(&mut self, wakes: &Vec<ObjectId>)
        requires
            old(self).wf(),
        ensures
            final(self).wf(),
            final(self).buildings@.len() == old(self).buildings@.len(),
            forall|i: int| 0 <= i < final(self).buildings@.len() ==> #[trigger] final(self).buildings@[i] == (BuildingState {
                simulate: old(self).buildings@[i].simulate || wakes@.contains(old(self).buildings@[i].id),
                ..old(self).buildings@[i]
            }),
            final(self).grid == old(self).grid,
            final(self).conflicts == old(self).conflicts,
            final(self).players@ == old(self).players@,
            final(self).actions@ == old(self).actions@,
            final(self).caches@ == old(self).caches@,
            final(self).index == old(self).index,
            final(self).counts == old(self).counts,
            final(self).points_timer == old(self).points_timer,
            final(self).abilities@ == old(self).abilities@,
    {
        let ghost start = self.buildings@;
        let mut i: usize = 0;
        while i < self.buildings.len()
            invariant
                self.wf(),
                i <= start.len(),
                self.buildings@.len() == start.len(),
                start == old(self).buildings@,
                forall|k: int| 0 <= k < i ==> #[trigger] self.buildings@[k] == (BuildingState {
                    simulate: start[k].simulate || wakes@.contains(start[k].id),
                    ..start[k]
                }),
                forall|k: int| i <= k < start.len() ==> #[trigger] self.buildings@[k] == start[k],
                self.grid == old(self).grid,
                self.conflicts == old(self).conflicts,
                self.players@ == old(self).players@,
                self.actions@ == old(self).actions@,
                self.caches@ == old(self).caches@,
                self.index == old(self).index,
                self.counts == old(self).counts,
                self.points_timer == old(self).points_timer,
                self.abilities@ == old(self).abilities@,
            decreases start.len() - i,
        {
            let b = self.buildings[i];
            let woken = contains_id(wakes, b.id);
            self.buildings.set(i, BuildingState { simulate: b.simulate || woken, ..b });
            i = i + 1;
        }
    }
}

/// Whether `id` is among `ids`.
pub fn contains_id(ids: &Vec<ObjectId>, id: ObjectId) -> (r: bool)
    ensures
        r == ids@.contains(id),
{
    let mut i: usize = 0;
    while i < ids.len()
        invariant
            i <= ids@.len(),
            forall|k: int| 0 <= k < i ==> ids@[k] != id,
        decreases ids@.len() - i,
    {
        if ids[i] == id {
            assert(ids@[i as int] == id);
            return true;
        }
        i = i + 1;
    }
    false
}

/// A building stays when it is not lost on the map `g`.
pub open spec fn kept_on(g: TileGrid) -> spec_fn(BuildingState) -> bool {
    |b: BuildingState| !crate::objects::building_lost(g, placed_of(b))
}

/// A building as an object on the map.
pub open spec fn placed_of(b: BuildingState) -> PlacedObject {
    PlacedObject { id: b.id, player: b.player, tile_pos: b.position }
}

impl GameWorld {
    /// Removes the buildings standing on a tile another player holds, and
    /// forgets each in the index of the tiles it reaches. The buildings that
    /// stay keep their order and their state.
    pub fn remove_lost_buildings(&mut self)
        requires
            old(self).wf(),
        ensures
            final(self).wf(),
            final(self).buildings@ == old(self).buildings@.filter(kept_on(old(self).grid)),
            final(self).grid == old(self).grid,
            final(self).conflicts == old(self).conflicts,
            final(self).players@ == old(self).players@,
            final(self).actions@ == old(self).actions@,
            final(self).counts == old(self).counts,
            final(self).points_timer == old(self).points_timer,
    {
        let ghost start = self.buildings@;
        let ghost g = self.grid;
        let n = self.buildings.len();
        let mut i: usize = n;
        while i > 0
            invariant
                self.wf(),
                g == self.grid,
                start == old(self).buildings@,
                i <= start.len(),
                self.buildings@ == start.subrange(0, i as int) + start.subrange(i as int, start.len() as int).filter(kept_on(g)),
                self.conflicts == old(self).conflicts,
                self.players@ == old(self).players@,
                self.actions@ == old(self).actions@,
                self.counts == old(self).counts,
                self.points_timer == old(self).points_timer,
            decreases i,
        {
            let j = i - 1;
            let b = self.buildings[j];
            proof {
                assert(self.buildings@[j as int] == start[j as int]);
                assert((self.grid.spec_tile(self.buildings@[j as int].position)) is Some);
                self.grid.lemma_grid_facts();
            }
            let lost = match self.grid.get(b.position) {
                Some(t) => match t.claim {
                    Some(c) => c.player != b.player,
                    None => false,
                },
                None => false,
            };
            proof {
                let rest = start.subrange(j + 1, start.len() as int);
                let tail = start.subrange(j as int, start.len() as int);
                assert(tail =~= seq![start[j as int]] + rest);
                assert(tail.drop_first() =~= rest);
                rest.lemma_filter_prepend(start[j as int], kept_on(g));
            }
            if lost {
                let (strength, shape) = match b.kind {
                    BuildingKind::Pulser(p) => (p.strength, ReachShape::Spread),
                    BuildingKind::Scatter(sc) => (sc.scatter_range, ReachShape::Spread),
                    BuildingKind::Line(l) => (l.strength, ReachShape::Line),
                };
                uncache_object(&self.grid, &mut self.index, b.id, b.position, strength, shape);
                let ghost before = self.buildings@;
                self.buildings.remove(j);
                self.caches.remove(j);
                proof {
                    assert(self.buildings@ =~= start.subrange(0, j as int) + start.subrange(j as int, start.len() as int).filter(kept_on(g)));
                    assert forall|k: int| 0 <= k < self.buildings@.len() implies {
                        &&& (#[trigger] self.grid.spec_tile(self.buildings@[k].position)) is Some
                        &&& building_can_run(self.buildings@[k].kind, self.caches@[k]@)
                    } by {
                        if k < j {
                            assert(self.buildings@[k] == before[k]);
                            assert(self.grid.spec_tile(before[k].position) is Some);
                        } else {
                            assert(self.buildings@[k] == before[k + 1]);
                            assert(self.grid.spec_tile(before[k + 1].position) is Some);
                        }
                    }
                }
            } else {
                proof {
                    assert(self.buildings@ =~= start.subrange(0, j as int) + start.subrange(j as int, start.len() as int).filter(kept_on(g)));
                }
            }
            i = j;
        }
        assert(start.subrange(0, 0) =~= Seq::<BuildingState>::empty());
        assert(start.subrange(0, start.len() as int) =~= start);
        assert(self.buildings@ =~= start.filter(kept_on(g)));
    }
}

/// The computer players' turn over `players` on the map `g` with the
/// conflicts `cc`, taking their requests from `before` to `after` (see
/// `run_ai`): player 0 is left alone; every other player takes its building
/// turn and then its ability turn, for some draws.
pub open spec fn ai_turn_ok(
    g: TileGrid,
    cc: ColorConflicts,
    players: Seq<PlayerRecord>,
    before: Seq<Actions>,
    after: Seq<Actions>,
) -> bool {
    &&& after.len() == players.len()
    &&& forall|i: int| 0 <= i < players.len() && #[trigger] players[i].id == 0 ==> after[i] == before[i]
    &&& forall|i: int| 0 <= i < players.len() && #[trigger] players[i].id != 0 ==> exists|
        target: Option<(TilePos, usize)>,
        acts: bool,
        coin: bool,
        die: u32,
        fortify: Option<(TilePos, usize)>,
        skip: bool,
        pick: u32,
    |
        crate::ai::is_ai_building_target(g, cc, players[i].id, target) && die <= 2
            && crate::ai::is_conflict_target(g, cc, players[i].id, true, fortify) && pick <= 2
            && after[i] == crate::ai::ai_ability_outcome(
            crate::ai::ai_building_outcome(before[i], players[i].points, target, acts, coin, die),
            players[i].points,
            fortify,
            crate::ai::expand_target(g),
            crate::ai::nuke_target(g, players[i].id),
            skip,
            pick,
        )
}

/// The buildings `bs` with every one whose id is among `wakes` put back into
/// simulation.
pub open spec fn woken(bs: Seq<BuildingState>, wakes: Seq<ObjectId>) -> Seq<BuildingState> {
    Seq::new(bs.len(), |k: int| BuildingState { simulate: bs[k].simulate || wakes.contains(bs[k].id), ..bs[k] })
}

/// What one simulation step does to the game `before`, giving `now`: the
/// buildings, after one tick, take their turns `chunks` (`after` being the
/// buildings once they acted); their requests make up the conflicts `cc`;
/// the computer players take their turn over `cc`; each tile is resolved on
/// its requests, and the players earn the ability points of the resolution;
/// the buildings reaching a changed tile are woken, and those standing on a
/// tile another player now holds are removed.
pub open spec fn step_result(
    before: GameWorld,
    now: GameWorld,
    after: Seq<BuildingState>,
    chunks: Seq<Seq<ColorConflictEvent>>,
    cc: ColorConflicts,
) -> bool {
    let ticked = ticked_all(before.buildings@);
    let events = turns_events(ticked, chunks);
    let keys = cc.conflicts.spec_keys();
    &&& turns_ok(before.grid, ticked, after, before.caches@, chunks)
    &&& cc.wf()
    &&& forall|p: TilePos| #[trigger] cc.conflicts.spec_at(p) == crate::conflicts::requests_for(events, p)
    &&& forall|p: TilePos| #[trigger] now.grid.spec_tile(p) == crate::resolve::resolved_by(
        before.grid,
        crate::conflicts::requests_for(events, p),
        p,
    )
    &&& ai_turn_ok(before.grid, cc, before.players@, before.actions@, now.actions@)
    &&& now.players@.len() == before.players@.len()
    &&& forall|j: int| 0 <= j < now.players@.len() ==> crate::resolve::awarded_within(
        before.players@[j],
        #[trigger] now.players@[j],
        crate::resolve::count_of(crate::resolve::resolution_awards(before.grid, cc, keys), before.players@[j].id),
    )
    &&& now.buildings@ == woken(after, crate::resolve::resolution_wakes(before.grid, cc, before.index, keys)).filter(
        kept_on(now.grid),
    )
}

impl GameWorld {
    /// One simulation step: the building cooldowns tick, the ready buildings
    /// act, their requests are registered, the computer players decide, the
    /// conflicts are resolved (waking the buildings that reach a changed
    /// tile), and the buildings standing on another player's tile are
    /// removed. The map keeps its tiles and only their claims change: each
    /// tile is resolved on the requests the ready buildings made for it in
    /// their turns; the computer players' requests, the ability points
    /// earned and the buildings that stay are as `step_result` states. The
    /// players keep their ids and building points, ability points only grow,
    /// and no building is added.
    pub fn step(&mut self)
        requires
            old(self).wf(),
        ensures
            final(self).wf(),
            final(self).grid.spec_size() == old(self).grid.spec_size(),
            forall|p: TilePos| (#[trigger] final(self).grid.spec_tile(p)) is Some <==> old(self).grid.spec_tile(p) is Some,
            forall|p: TilePos| (#[trigger] final(self).grid.spec_tile(p)) is Some ==> final(self).grid.spec_tile(p)->0 == (TileState {
                claim: final(self).grid.spec_tile(p)->0.claim,
                ..old(self).grid.spec_tile(p)->0
            }),
            final(self).players@.len() == old(self).players@.len(),
            forall|j: int| 0 <= j < final(self).players@.len() ==> {
                &&& #[trigger] final(self).players@[j].id == old(self).players@[j].id
                &&& final(self).players@[j].points.building_points == old(self).players@[j].points.building_points
                &&& old(self).players@[j].points.ability_points <= final(self).players@[j].points.ability_points
            },
            final(self).buildings@.len() <= old(self).buildings@.len(),
            buildings_from(final(self).buildings@, old(self).buildings@),
            final(self).points_timer == old(self).points_timer,
            exists|after: Seq<BuildingState>, chunks: Seq<Seq<ColorConflictEvent>>, cc: ColorConflicts|
                #[trigger] step_result(*old(self), *final(self), after, chunks, cc),
    {
        self.update_building_timers();
        let ghost bt = self.buildings@;
        proof {
            assert(bt =~= ticked_all(old(self).buildings@));
        }
        let events = self.simulate_buildings();
        let ghost after = self.buildings@;
        let ghost chunks = choose|chunks: Seq<Seq<ColorConflictEvent>>|
            turns_ok(old(self).grid, bt, after, old(self).caches@, chunks) && events@ == turns_events(bt, chunks);
        proof {
            self.conflicts.conflicts.lemma_keys();
        }
        let no_guarantees: Vec<ColorConflictGuarantees> = Vec::new();
        let ghost before_update = self.conflicts;
        update_color_conflicts(&mut self.conflicts, &events, &no_guarantees);
        proof {
            if self.conflicts.guaranteed_conflicts.spec_keys().len() > 0 {
                let p = self.conflicts.guaranteed_conflicts.spec_keys()[0];
                assert(self.conflicts.guaranteed_conflicts.spec_keys().contains(p));
                assert(!before_update.guaranteed_conflicts.spec_keys().contains(p));
            }
            assert forall|i: int| 0 <= i < self.conflicts.conflicts.spec_keys().len()
                implies (#[trigger] self.grid.spec_tile(self.conflicts.conflicts.spec_keys()[i])) is Some by {
                let p = self.conflicts.conflicts.spec_keys()[i];
                assert(self.conflicts.conflicts.spec_keys().contains(p));
                assert(!before_update.conflicts.spec_keys().contains(p));
                let k = choose|k: int| 0 <= k < events@.len() && #[trigger] events@[k].tile_pos == p;
                assert(self.grid.spec_tile(events@[k].tile_pos) is Some);
            }
        }
        run_ai(&self.grid, &self.conflicts, &self.players, &mut self.actions);
        proof {
            assert forall|j: int| 0 <= j < self.players@.len() implies #[trigger] self.players@[j].points.ability_points
                <= ABILITY_POINTS_CAP by {
                assert(self.players@[j].points.building_points <= BUILDING_POINTS_CAP);
            }
            assert(self.players@ == old(self).players@);
        }
        let ghost grid_before = self.grid;
        let ghost players_before = self.players@;
        let ghost conflicts_before = self.conflicts;
        let wakes = handle_color_conflicts(&mut self.conflicts, &mut self.counts, &mut self.grid, &mut self.players, &self.index);
        proof {
            assert forall|p: TilePos| (#[trigger] self.grid.spec_tile(p)) is Some <==> grid_before.spec_tile(p) is Some by {
                assert(self.grid.spec_tile(p) == resolved_tile(grid_before, conflicts_before, p));
            }
            assert forall|p: TilePos| (#[trigger] self.grid.spec_tile(p)) is Some implies self.grid.spec_tile(p)->0 == (TileState {
                claim: self.grid.spec_tile(p)->0.claim,
                ..old(self).grid.spec_tile(p)->0
            }) by {
                assert(self.grid.spec_tile(p) == resolved_tile(grid_before, conflicts_before, p));
            }
            assert forall|j: int| 0 <= j < self.players@.len() implies {
                &&& #[trigger] self.players@[j].points.building_points <= BUILDING_POINTS_CAP
                &&& self.players@[j].points.ability_points <= ABILITY_POINTS_CAP
            } by {
                assert(crate::resolve::awarded_within(
                    players_before[j],
                    self.players@[j],
                    crate::resolve::count_of(
                        crate::resolve::resolution_awards(grid_before, conflicts_before, conflicts_before.conflicts.spec_keys()),
                        players_before[j].id,
                    ),
                ));
                assert(players_before[j].points.building_points <= BUILDING_POINTS_CAP);
            }
            assert forall|i: int| 0 <= i < self.buildings@.len() implies {
                &&& (#[trigger] self.grid.spec_tile(self.buildings@[i].position)) is Some
                &&& building_can_run(self.buildings@[i].kind, self.caches@[i]@)
            } by {
                assert(grid_before.spec_tile(self.buildings@[i].position) is Some);
            }
            assert forall|i: int| 0 <= i < self.abilities@.len() implies ability_ok(self.grid, #[trigger] self.abilities@[i], self.ability_caches@[i]@) by {
                lemma_ability_ok_kept(grid_before, self.grid, self.abilities@[i], self.ability_caches@[i]@);
            }
            assert forall|j: int| 0 <= j < self.players@.len() implies {
                &&& #[trigger] self.players@[j].id == old(self).players@[j].id
                &&& self.players@[j].points.building_points == old(self).players@[j].points.building_points
                &&& old(self).players@[j].points.ability_points <= self.players@[j].points.ability_points
            } by {
                assert(crate::resolve::awarded_within(
                    players_before[j],
                    self.players@[j],
                    crate::resolve::count_of(
                        crate::resolve::resolution_awards(grid_before, conflicts_before, conflicts_before.conflicts.spec_keys()),
                        players_before[j].id,
                    ),
                ));
            }
        }
        self.wake_buildings(&wakes);
        let ghost mid = self.buildings@;
        let ghost grid_now = self.grid;
        proof {
            assert forall|j: int| 0 <= j < mid.len() implies identity_of(#[trigger] mid[j]) == identity_of(old(self).buildings@[j]) by {}
        }
        self.remove_lost_buildings();
        proof {
            lemma_kept_buildings_from(mid, old(self).buildings@, grid_now);
            assert forall|p: TilePos| #[trigger] self.grid.spec_tile(p) == crate::resolve::resolved_by(
                old(self).grid,
                crate::conflicts::requests_for(turns_events(bt, chunks), p),
                p,
            ) by {
                assert(before_update.conflicts.spec_at(p) == Seq::<(usize, usize)>::empty());
                assert(conflicts_before.conflicts.spec_at(p) =~= crate::conflicts::requests_for(events@, p));
                assert(grid_now.spec_tile(p) == resolved_tile(grid_before, conflicts_before, p));
            }
            assert forall|p: TilePos| #[trigger] conflicts_before.conflicts.spec_at(p) == crate::conflicts::requests_for(turns_events(bt, chunks), p) by {
                assert(before_update.conflicts.spec_at(p) == Seq::<(usize, usize)>::empty());
                assert(conflicts_before.conflicts.spec_at(p) =~= crate::conflicts::requests_for(events@, p));
            }
            assert(mid =~= woken(after, wakes@));
            assert(ai_turn_ok(old(self).grid, conflicts_before, old(self).players@, old(self).actions@, self.actions@));
            assert(step_result(*old(self), *self, after, chunks, conflicts_before));
        }
    }

    /// The step after the simulation: building points are paid out (see
    /// `update_player_points`) on the first step and then every 100 steps,
    /// and the end of the game is checked under `conditions`, the map's
    /// width standing for its side.
    pub fn post_step(&mut self, conditions: GameEndConditions) -> (r: Option<GameEnded>)
        requires
            old(self).wf(),
        ensures
            final(self).wf(),
            final(self).grid == old(self).grid,
            final(self).buildings@ == old(self).buildings@,
            final(self).points_timer == if old(self).points_timer <= 1 { 100 } else { old(self).points_timer - 1 },
            old(self).points_timer > 1 ==> final(self).players@ == old(self).players@,
            old(self).points_timer <= 1 ==> final(self).players@.len() == old(self).players@.len() && forall|i: int|
                0 <= i < final(self).players@.len() ==> {
                    &&& #[trigger] final(self).players@[i].id == old(self).players@[i].id
                    &&& final(self).players@[i].points.ability_points == old(self).players@[i].points.ability_points
                    &&& exists|draws: Seq<bool>| draws.len() == crate::points::award_count(
                        crate::points::full_tiles(old(self).grid.spec_cells(), old(self).players@[i].id),
                    ) && final(self).players@[i].points.building_points == crate::points::after_awards(
                        old(self).players@[i].points.building_points,
                        draws,
                    )
                },
            r == crate::end_game::game_end_result(
                crate::end_game::tally_of(crate::end_game::cell_owners(old(self).grid.spec_cells())),
                conditions,
                (old(self).grid.spec_size().x * old(self).grid.spec_size().x) as nat,
            ),
    {
        if self.points_timer <= 1 {
            let ghost before = self.players@;
            update_player_points(&self.grid, &mut self.players);
            proof {
                assert forall|j: int| 0 <= j < self.players@.len() implies {
                    &&& #[trigger] self.players@[j].points.building_points <= BUILDING_POINTS_CAP
                    &&& self.players@[j].points.ability_points <= ABILITY_POINTS_CAP
                } by {
                    assert(self.players@[j].id == before[j].id);
                    assert(before[j].points.building_points <= BUILDING_POINTS_CAP);
                }
            }
            self.points_timer = 100;
        } else {
            self.points_timer = self.points_timer - 1;
        }
        let side = self.grid.size().x;
        proof {
            assert(side * side <= 0xFFFF * 0xFFFF) by (nonlinear_arith)
                requires
                    side <= 0xFFFF,
            ;
        }
        update_game_end_state(&self.grid, conditions, side)
    }
}

/// The players of `later` are those of `earlier`, with the same building
/// points and no more ability points.
pub open spec fn players_spent_from(later: Seq<PlayerRecord>, earlier: Seq<PlayerRecord>) -> bool {
    &&& later.len() == earlier.len()
    &&& forall|j: int| 0 <= j < later.len() ==> {
        &&& (#[trigger] later[j]).id == earlier[j].id
        &&& later[j].points.building_points == earlier[j].points.building_points
        &&& later[j].points.ability_points <= earlier[j].points.ability_points
    }
}

/// The ability placed for a request, as it stands on the map: not ready
/// yet, its cooldown in ticks of ten milliseconds.
pub open spec fn placed_ability(id: ObjectId, spawn: AbilitySpawn) -> AbilityState {
    AbilityState { id, spawn, cooldown_ticks: spawn.cooldown_millis / 10, active: false, destroy: false }
}

/// Whether one of `added` stands on the tile `p`.
pub open spec fn added_at(added: Seq<AbilitySpawn>, p: TilePos) -> bool {
    exists|k: int| 0 <= k < added.len() && (#[trigger] added[k]).position == p
}

/// Whether an ability goes on the tile `p` of the map `g`, once the
/// abilities `added` were put on it, the next identity being `next_id` plus
/// their number: the tile exists, holds no ability, and an identity is left.
pub open spec fn ability_fits(g: TileGrid, added: Seq<AbilitySpawn>, p: TilePos, next_id: nat) -> bool {
    match g.spec_tile(p) {
        Some(t) => !t.has_ability && !added_at(added, p) && next_id + added.len() < usize::MAX,
        None => false,
    }
}

/// The players once the player with id `id` paid for an ability.
pub open spec fn paid_for_ability(players: Seq<PlayerRecord>, id: usize) -> Seq<PlayerRecord> {
    let i = crate::abilities::find_player(players, id)->0;
    players.update(
        i,
        PlayerRecord {
            points: PlayerPoints {
                ability_points: (players[i].points.ability_points - crate::abilities::ABILITY_COST) as u32,
                ..players[i].points
            },
            ..players[i]
        },
    )
}

/// A round of ability requests over the first `n` players of `players`, on
/// the map `g`, with the requests `actions`, `cursor_tile` being the tile
/// under the cursor and `next_id` the next identity: the players with what
/// they paid, the outcome of each request made, and the abilities put on
/// the map, in order.
pub open spec fn ability_round(
    players: Seq<PlayerRecord>,
    g: TileGrid,
    actions: Seq<Actions>,
    cursor_tile: Option<TilePos>,
    next_id: nat,
    n: nat,
) -> (Seq<PlayerRecord>, Seq<Result<AbilitySpawn, SpawnAbilityError>>, Seq<AbilitySpawn>)
    decreases n,
{
    if n == 0 {
        (players, Seq::empty(), Seq::empty())
    } else {
        let prev = ability_round(players, g, actions, cursor_tile, next_id, (n - 1) as nat);
        let a = actions[n - 1];
        match placement(a.try_place_ability, a.target_world_pos, cursor_tile, a.ability_tile_pos) {
            Some(t) => {
                let cmd = SpawnAbility { ability_type: a.selected_ability, player_id: players[n - 1].id, target_tile_pos: t };
                let r = spawn_ability_result(prev.0, g, cmd);
                match r {
                    Ok(spawn) => if ability_fits(g, prev.2, spawn.position, next_id) {
                        (paid_for_ability(prev.0, cmd.player_id), prev.1.push(r), prev.2.push(spawn))
                    } else {
                        (paid_for_ability(prev.0, cmd.player_id), prev.1.push(Err(SpawnAbilityError::TileFull)), prev.2)
                    },
                    Err(_) => (prev.0, prev.1.push(r), prev.2),
                }
            },
            None => prev,
        }
    }
}

/// The abilities put on the map for `added`, the first with identity
/// `next_id` and each next one with the identity after.
pub open spec fn placed_abilities(next_id: nat, added: Seq<AbilitySpawn>) -> Seq<AbilityState> {
    Seq::new(added.len(), |k: int| placed_ability(ObjectId { id: (next_id + k) as usize }, added[k]))
}

/// The tile `p` of the map `g` once the abilities `added` were put on it.
pub open spec fn tile_with_abilities(g: TileGrid, added: Seq<AbilitySpawn>, p: TilePos) -> Option<TileState> {
    if added_at(added, p) {
        Some(TileState { has_ability: true, ..g.spec_tile(p)->0 })
    } else {
        g.spec_tile(p)
    }
}

/// The tiles an ability placed on the map `g` affects, nearest first: those
/// a nuke or an expand reaches from its tile within its strength; none for
/// a fortify, which looks anew each time it acts.
pub open spec fn ability_cache_ok(g: TileGrid, spawn: AbilitySpawn, cache: Seq<TilePos>) -> bool {
    match spawn.ability {
        AbilityKind::Nuke(n) => exists|listing: Seq<(TilePos, u32)>|
            crate::objects::shape_listing_ok(g, spawn.position, n.strength, ReachShape::Spread, listing)
                && cache == crate::objects::listing_tiles(listing),
        AbilityKind::Expand(e) => exists|listing: Seq<(TilePos, u32)>|
            crate::objects::shape_listing_ok(g, spawn.position, e.strength, ReachShape::Spread, listing)
                && cache == crate::objects::listing_tiles(listing),
        AbilityKind::Fortify(_) => cache.len() == 0,
    }
}

impl GameWorld {
    /// Puts a placed ability on the map, when its tile exists and holds no
    /// ability yet: it gets the next identity, reaches the tiles within its
    /// strength (a nuke or an expand; a fortify looks anew each time it
    /// acts), and its tile then holds an ability. Returns whether it was put
    /// on the map.
    pub fn add_ability(&mut self, spawn: AbilitySpawn) -> (placed: bool)
        requires
            old(self).wf(),
            ability_can_run(spawn.ability),
        ensures
            final(self).wf(),
            placed == (match old(self).grid.spec_tile(spawn.position) {
                Some(t) => !t.has_ability && old(self).next_object_id < usize::MAX,
                None => false,
            }),
            placed ==> final(self).abilities@ == old(self).abilities@.push(
                placed_ability(ObjectId { id: old(self).next_object_id }, spawn),
            ),
            placed ==> final(self).grid.spec_tile(spawn.position) == Some(TileState {
                has_ability: true,
                ..old(self).grid.spec_tile(spawn.position)->0
            }),
            placed ==> forall|p: TilePos| p != spawn.position ==> #[trigger] final(self).grid.spec_tile(p)
                == old(self).grid.spec_tile(p),
            placed ==> final(self).ability_caches@.len() == old(self).ability_caches@.len() + 1
                && final(self).ability_caches@.drop_last() == old(self).ability_caches@
                && ability_cache_ok(old(self).grid, spawn, final(self).ability_caches@.last()@),
            !placed ==> final(self).abilities@ == old(self).abilities@ && final(self).grid == old(self).grid
                && final(self).ability_caches@ == old(self).ability_caches@,
            final(self).next_object_id == if placed { old(self).next_object_id + 1 } else { old(self).next_object_id as int },
            final(self).grid.spec_size() == old(self).grid.spec_size(),
            final(self).players@ == old(self).players@,
            final(self).actions@ == old(self).actions@,
            final(self).buildings@ == old(self).buildings@,
    {
        let t = match self.grid.get(spawn.position) {
            Some(t) => t,
            None => return false,
        };
        if t.has_ability || self.next_object_id == usize::MAX {
            return false;
        }
        let id = ObjectId { id: self.next_object_id };
        self.next_object_id = self.next_object_id + 1;
        proof {
            self.grid.lemma_grid_facts();
        }
        let ghost g = self.grid;
        let cache: Vec<TilePos> = match spawn.ability {
            AbilityKind::Nuke(n) => {
                let c = cache_object(&self.grid, &mut self.index, id, spawn.position, n.strength, ReachShape::Spread);
                proof {
                    let listing = choose|listing: Seq<(TilePos, u32)>|
                        crate::objects::shape_listing_ok(g, spawn.position, n.strength, ReachShape::Spread, listing)
                            && c.cache@ == crate::objects::listing_tiles(listing) && forall|q: TilePos|
                            #[trigger] self.index.spec_at(q) == old(self).index.spec_at(q) + crate::objects::repeated(
                                id,
                                crate::objects::occurrences(crate::objects::listing_tiles(listing), q),
                            );
                    crate::pathfinding::lemma_listing_on_tiles(g, spawn.position, n.strength as nat, listing);
                    assert forall|k: int| 0 <= k < c.cache@.len() implies (#[trigger] g.spec_tile(c.cache@[k])) is Some by {
                        assert(c.cache@[k] == listing[k].0);
                    }
                }
                c.cache
            },
            AbilityKind::Expand(e) => {
                let c = cache_object(&self.grid, &mut self.index, id, spawn.position, e.strength, ReachShape::Spread);
                proof {
                    let listing = choose|listing: Seq<(TilePos, u32)>|
                        crate::objects::shape_listing_ok(g, spawn.position, e.strength, ReachShape::Spread, listing)
                            && c.cache@ == crate::objects::listing_tiles(listing) && forall|q: TilePos|
                            #[trigger] self.index.spec_at(q) == old(self).index.spec_at(q) + crate::objects::repeated(
                                id,
                                crate::objects::occurrences(crate::objects::listing_tiles(listing), q),
                            );
                    crate::pathfinding::lemma_listing_on_tiles(g, spawn.position, e.strength as nat, listing);
                    assert forall|k: int| 0 <= k < c.cache@.len() implies (#[trigger] g.spec_tile(c.cache@[k])) is Some by {
                        assert(c.cache@[k] == listing[k].0);
                    }
                }
                c.cache
            },
            AbilityKind::Fortify(_) => Vec::new(),
        };
        self.grid.set_tile(spawn.position, Some(TileState { has_ability: true, ..t }));
        proof {
            assert forall|p: TilePos| (#[trigger] self.grid.spec_tile(p)) is Some <==> g.spec_tile(p) is Some by {
                if p == spawn.position {
                } else {
                }
            }
            assert forall|i: int| 0 <= i < self.buildings@.len() implies {
                &&& (#[trigger] self.grid.spec_tile(self.buildings@[i].position)) is Some
                &&& building_can_run(self.buildings@[i].kind, self.caches@[i]@)
            } by {
                assert(g.spec_tile(self.buildings@[i].position) is Some);
            }
            assert forall|i: int| 0 <= i < self.abilities@.len() implies ability_ok(self.grid, #[trigger] self.abilities@[i], self.ability_caches@[i]@) by {
                lemma_ability_ok_kept(g, self.grid, self.abilities@[i], self.ability_caches@[i]@);
            }
            assert forall|k: int| 0 <= k < cache@.len() implies (#[trigger] self.grid.spec_tile(cache@[k])) is Some by {
                assert(g.spec_tile(cache@[k]) is Some);
            }
        }
        let state = AbilityState { id, spawn, cooldown_ticks: spawn.cooldown_millis / 10, active: false, destroy: false };
        self.abilities.push(state);
        self.ability_caches.push(cache);
        proof {
            assert forall|i: int| 0 <= i < self.abilities@.len() implies ability_ok(self.grid, #[trigger] self.abilities@[i], self.ability_caches@[i]@) by {
                if i < self.abilities@.len() - 1 {
                    assert(self.abilities@[i] == old(self).abilities@[i]);
                }
            }
        }
        true
    }

    /// Carries out the players' requests to place an ability, in player
    /// order: where a player's requests name a place for an ability (see
    /// `ability_placement`, `cursor_tile` being the tile under the cursor),
    /// the ability it selected is placed there for it, as
    /// `SpawnAbility::execute` decides, and put on the map as `add_ability`
    /// does. Returns the outcome of each request, in order (see
    /// `ability_round`); a request that was paid for but whose ability could
    /// not be put on the map comes out as `TileFull`, the points spent.
    pub fn place_ability(&mut self, cursor_tile: Option<TilePos>) -> (results: Vec<Result<AbilitySpawn, SpawnAbilityError>>)
        requires
            old(self).wf(),
        ensures
            ({
                let round = ability_round(
                    old(self).players@,
                    old(self).grid,
                    old(self).actions@,
                    cursor_tile,
                    old(self).next_object_id as nat,
                    old(self).players@.len(),
                );
                &&& results@ == round.1
                &&& final(self).players@ == round.0
                &&& final(self).abilities@ == old(self).abilities@ + placed_abilities(old(self).next_object_id as nat, round.2)
                &&& forall|p: TilePos| #[trigger] final(self).grid.spec_tile(p) == tile_with_abilities(old(self).grid, round.2, p)
                &&& final(self).next_object_id == old(self).next_object_id + round.2.len()
            }),
            final(self).wf(),
            final(self).grid.spec_size() == old(self).grid.spec_size(),
            final(self).buildings@ == old(self).buildings@,
            final(self).actions@ == old(self).actions@,
            players_spent_from(final(self).players@, old(self).players@),
    {
        let ghost start = self.players@;
        let ghost g0 = self.grid;
        let ghost next0 = self.next_object_id as nat;
        let mut results: Vec<Result<AbilitySpawn, SpawnAbilityError>> = Vec::new();
        let mut i: usize = 0;
        while i < self.players.len()
            invariant
                self.wf(),
                self.grid.spec_size() == old(self).grid.spec_size(),
                self.buildings@ == old(self).buildings@,
                self.actions@ == old(self).actions@,
                start == old(self).players@,
                g0 == old(self).grid,
                next0 == old(self).next_object_id,
                players_spent_from(self.players@, start),
                i <= start.len(),
                ({
                    let round = ability_round(start, g0, self.actions@, cursor_tile, next0, i as nat);
                    &&& results@ == round.1
                    &&& self.players@ == round.0
                    &&& self.abilities@ == old(self).abilities@ + placed_abilities(next0, round.2)
                    &&& forall|p: TilePos| #[trigger] self.grid.spec_tile(p) == tile_with_abilities(g0, round.2, p)
                    &&& self.next_object_id == next0 + round.2.len()
                    &&& forall|p: TilePos| #[trigger] added_at(round.2, p) ==> g0.spec_tile(p) is Some
                }),
            decreases start.len() - i,
        {
            let ghost round = ability_round(start, g0, self.actions@, cursor_tile, next0, i as nat);
            let a = self.actions[i];
            let id = self.players[i].id;
            proof {
                assert(id == start[i as int].id);
            }
            match ability_placement(&a, cursor_tile) {
                Some(target) => {
                    let request = SpawnAbility { ability_type: a.selected_ability, player_id: id, target_tile_pos: target };
                    let ghost before = self.players@;
                    proof {
                        assert(spawn_ability_result(before, self.grid, request) == spawn_ability_result(before, g0, request)) by {
                            assert(self.grid.spec_tile(target) == tile_with_abilities(g0, round.2, target));
                            if added_at(round.2, target) {
                                let t = g0.spec_tile(target)->0;
                                assert(self.grid.spec_tile(target) == Some(TileState { has_ability: true, ..t }));
                            }
                        }
                    }
                    let r = request.execute(&mut self.players, &self.grid);
                    proof {
                        assert(players_spent_from(self.players@, before)) by {
                            if r is Ok {
                                crate::abilities::lemma_find_player_in_range(before, id);
                                let k = crate::abilities::find_player(before, id)->0;
                                assert forall|j: int| 0 <= j < self.players@.len() implies {
                                    &&& (#[trigger] self.players@[j]).id == before[j].id
                                    &&& self.players@[j].points.building_points == before[j].points.building_points
                                    &&& self.players@[j].points.ability_points <= before[j].points.ability_points
                                } by {
                                    if j != k {
                                        assert(self.players@[j] == before[j]);
                                    }
                                }
                            }
                        }
                        assert forall|j: int| 0 <= j < self.players@.len() implies {
                            &&& (#[trigger] self.players@[j]).id == start[j].id
                            &&& self.players@[j].points.building_points == start[j].points.building_points
                            &&& self.players@[j].points.ability_points <= start[j].points.ability_points
                        } by {
                            assert(before[j].id == start[j].id);
                        }
                        assert forall|j: int| 0 <= j < self.players@.len() implies {
                            &&& #[trigger] self.players@[j].points.building_points <= crate::points::BUILDING_POINTS_CAP
                            &&& self.players@[j].points.ability_points <= crate::points::ABILITY_POINTS_CAP
                        } by {
                            assert(self.players@[j].id == start[j].id);
                            assert(start[j].points.building_points <= crate::points::BUILDING_POINTS_CAP);
                        }
                    }
                    let outcome = match r {
                        Ok(spawn) => {
                            proof {
                                assert(spawn == crate::abilities::spawned_ability(request));
                                assert(spawn.position == target);
                            }
                            let ghost ab = self.abilities@;
                            let ghost gb = self.grid;
                            let placed = self.add_ability(spawn);
                            proof {
                                assert(placed == ability_fits(g0, round.2, spawn.position, next0)) by {
                                    assert(gb.spec_tile(target) == tile_with_abilities(g0, round.2, target));
                                }
                                let added = if placed { round.2.push(spawn) } else { round.2 };
                                assert forall|p: TilePos| #[trigger] self.grid.spec_tile(p) == tile_with_abilities(g0, added, p) by {
                                    assert(gb.spec_tile(p) == tile_with_abilities(g0, round.2, p));
                                    if placed {
                                        if p == target {
                                            assert(added[round.2.len() as int].position == p);
                                        } else {
                                            if added_at(added, p) {
                                                let k = choose|k: int| 0 <= k < added.len() && (#[trigger] added[k]).position == p;
                                                assert(round.2[k].position == p);
                                            }
                                            if added_at(round.2, p) {
                                                let k = choose|k: int| 0 <= k < round.2.len() && (#[trigger] round.2[k]).position == p;
                                                assert(added[k].position == p);
                                            }
                                        }
                                    }
                                }
                                assert(self.abilities@ =~= old(self).abilities@ + placed_abilities(next0, added));
                                assert forall|p: TilePos| #[trigger] added_at(added, p) implies g0.spec_tile(p) is Some by {
                                    let k = choose|k: int| 0 <= k < added.len() && (#[trigger] added[k]).position == p;
                                    if k < round.2.len() {
                                        assert(round.2[k].position == p);
                                        assert(added_at(round.2, p));
                                    }
                                }
                            }
                            if placed {
                                r
                            } else {
                                Err(SpawnAbilityError::TileFull)
                            }
                        },
                        Err(e) => Err(e),
                    };
                    results.push(outcome);
                },
                None => {},
            }
            i = i + 1;
        }
        results
    }
}

/// An ability after one tick of its cooldown: a ready ability waits until
/// it has acted; otherwise the cooldown counts down, and when it runs out
/// the ability becomes ready, the cooldown starts again, and one activation
/// fewer is left.
pub open spec fn ability_ticked(a: AbilityState) -> AbilityState {
    if a.active {
        a
    } else if a.cooldown_ticks <= 1 {
        AbilityState {
            active: true,
            cooldown_ticks: a.spawn.cooldown_millis / 10,
            spawn: AbilitySpawn {
                timer_ticks: if a.spawn.timer_ticks == 0 { 0 } else { (a.spawn.timer_ticks - 1) as u32 },
                ..a.spawn
            },
            ..a
        }
    } else {
        AbilityState { cooldown_ticks: (a.cooldown_ticks - 1) as u32, ..a }
    }
}

/// An ability after its turn to act: a ready ability acts and is ready no
/// more, and is to be removed when it had no activation left; any other
/// ability is left as it is.
pub open spec fn ability_acted(a: AbilityState) -> AbilityState {
    if a.active {
        AbilityState { active: false, destroy: a.spawn.timer_ticks == 0, ..a }
    } else {
        a
    }
}

/// The pass in which an ability of the given kind acts: nukes first, then
/// expands, then fortifies.
pub open spec fn ability_kind_pass(kind: AbilityKind) -> int {
    match kind {
        AbilityKind::Nuke(_) => 0,
        AbilityKind::Expand(_) => 1,
        AbilityKind::Fortify(_) => 2,
    }
}

/// The pass in which an ability of the given kind acts.
fn ability_pass_of(kind: AbilityKind) -> (r: usize)
    ensures
        r == ability_kind_pass(kind),
{
    match kind {
        AbilityKind::Nuke(_) => 0,
        AbilityKind::Expand(_) => 1,
        AbilityKind::Fortify(_) => 2,
    }
}

/// An ability after the pass `pass`: one of that pass's kind takes its turn
/// to act; any other is left as it is.
pub open spec fn acted_in_ability_pass(a: AbilityState, pass: int) -> AbilityState {
    if ability_kind_pass(a.spawn.ability) == pass {
        ability_acted(a)
    } else {
        a
    }
}

/// An ability stays on the map while it has not run out.
pub open spec fn ability_kept() -> spec_fn(AbilityState) -> bool {
    |a: AbilityState| !a.destroy
}

/// One turn of the ready ability `a`, whose cache is `cache`, on the map
/// `g`: the guaranteed conflicts `chunk` it forces. A nuke damages each tile
/// of its cache a drawn number of times (see `simulate_nuke`); an expand
/// claims its own tile and the cache tiles by the caster's territory a drawn
/// number of times (see `simulate_expand`); a fortify strengthens its own
/// tile twice and each of the caster's tiles it reaches a drawn number of
/// times (see `simulate_fortify`).
pub open spec fn ability_turn_ok(g: TileGrid, a: AbilityState, cache: Seq<TilePos>, chunk: Seq<ColorConflictGuarantees>) -> bool {
    let caster = a.spawn.player;
    match a.spawn.ability {
        AbilityKind::Nuke(n) => exists|counts: Seq<nat>|
            counts.len() == cache.len() && crate::abilities::counts_between(
                counts,
                n.min_tile_damage as nat,
                n.max_tile_damage as nat,
            ) && chunk == crate::abilities::guarantees_per_tile(cache, counts, crate::abilities::nuke_guarantee(caster)),
        AbilityKind::Expand(e) => exists|counts: Seq<nat>|
            crate::abilities::counts_between(counts, e.min_tile_strengthen as nat, e.max_tile_strengthen as nat)
                && counts.len() == 1 + crate::abilities::expand_targets(g, caster, cache).len() && chunk
                == crate::abilities::guarantees_per_tile(
                seq![a.spawn.position] + crate::abilities::expand_targets(g, caster, cache),
                counts,
                crate::abilities::expand_guarantee(caster),
            ),
        AbilityKind::Fortify(f) => exists|listing: Seq<(TilePos, u32)>, counts: Seq<nat>|
            crate::pathfinding::is_reach_listing(g, a.spawn.position, f.strength as nat, listing) && listing.len() > 0
                && listing[0] == (a.spawn.position, 0u32) && counts.len() == crate::abilities::owned_tiles(
                g,
                caster,
                crate::objects::listing_tiles(listing).drop_first(),
            ).len() && crate::abilities::counts_between(
                counts,
                f.min_tile_strengthen as nat,
                (f.max_tile_strengthen - 1) as nat,
            ) && chunk == crate::abilities::copies(crate::abilities::fortify_guarantee(caster)(a.spawn.position), 2)
                + crate::abilities::guarantees_per_tile(
                crate::abilities::owned_tiles(g, caster, crate::objects::listing_tiles(listing).drop_first()),
                counts,
                crate::abilities::fortify_guarantee(caster),
            ),
    }
}

/// The guaranteed conflicts of a list of turns, one after the other.
pub open spec fn concat_guarantees(chunks: Seq<Seq<ColorConflictGuarantees>>) -> Seq<ColorConflictGuarantees>
    decreases chunks.len(),
{
    if chunks.len() == 0 {
        Seq::empty()
    } else {
        concat_guarantees(chunks.drop_last()) + chunks.last()
    }
}

/// The turns `chunks` of an ability pass `pass` over the abilities `before`
/// with caches `caches` on the map `g`: one list per ability, that of a
/// ready ability of the pass's kind being its turn (see `ability_turn_ok`),
/// the others empty.
pub open spec fn ability_pass_chunks_ok(
    g: TileGrid,
    before: Seq<AbilityState>,
    caches: Seq<Vec<TilePos>>,
    pass: int,
    chunks: Seq<Seq<ColorConflictGuarantees>>,
) -> bool {
    &&& chunks.len() == before.len()
    &&& forall|k: int| 0 <= k < chunks.len() ==> if before[k].active && ability_kind_pass(before[k].spawn.ability) == pass {
        ability_turn_ok(g, before[k], caches[k]@, #[trigger] chunks[k])
    } else {
        chunks[k].len() == 0
    }
}

/// The turns `chunks` of the abilities `before` with caches `caches` on the
/// map `g`: a ready ability takes its turn; the others force nothing.
pub open spec fn ability_turns_ok(
    g: TileGrid,
    before: Seq<AbilityState>,
    caches: Seq<Vec<TilePos>>,
    chunks: Seq<Seq<ColorConflictGuarantees>>,
) -> bool {
    &&& chunks.len() == before.len()
    &&& forall|k: int| 0 <= k < chunks.len() ==> if before[k].active {
        ability_turn_ok(g, before[k], caches[k]@, #[trigger] chunks[k])
    } else {
        chunks[k].len() == 0
    }
}

/// The turns among `chunks` of the abilities of pass `pass` in `before`,
/// the others left empty.
pub open spec fn ability_pass_part(before: Seq<AbilityState>, chunks: Seq<Seq<ColorConflictGuarantees>>, pass: int) -> Seq<
    Seq<ColorConflictGuarantees>,
> {
    Seq::new(chunks.len(), |k: int| if ability_kind_pass(before[k].spawn.ability) == pass { chunks[k] } else { Seq::empty() })
}

/// The guaranteed conflicts of the abilities' turns `chunks` in the order
/// they are forced: the nukes' first, then the expands', then the
/// fortifies', each kind in list order.
pub open spec fn ability_turns_events(before: Seq<AbilityState>, chunks: Seq<Seq<ColorConflictGuarantees>>) -> Seq<
    ColorConflictGuarantees,
> {
    concat_guarantees(ability_pass_part(before, chunks, 0)) + concat_guarantees(ability_pass_part(before, chunks, 1))
        + concat_guarantees(ability_pass_part(before, chunks, 2))
}

impl GameWorld {
    /// Counts down the cooldown of every ability by one tick.
    pub fn update_ability_timers(&mut self)
        requires
            old(self).wf(),
        ensures
            final(self).wf(),
            final(self).abilities@.len() == old(self).abilities@.len(),
            forall|i: int| 0 <= i < final(self).abilities@.len() ==> #[trigger] final(self).abilities@[i] == ability_ticked(
                old(self).abilities@[i],
            ),
            final(self).grid == old(self).grid,
            final(self).conflicts == old(self).conflicts,
            final(self).players@ == old(self).players@,
            final(self).buildings@ == old(self).buildings@,
            final(self).ability_caches@ == old(self).ability_caches@,
            final(self).index == old(self).index,
            final(self).actions@ == old(self).actions@,
            final(self).points_timer == old(self).points_timer,
    {
        let ghost start = self.abilities@;
        let mut i: usize = 0;
        while i < self.abilities.len()
            invariant
                self.wf(),
                self.abilities@.len() == start.len(),
                start == old(self).abilities@,
                i <= start.len(),
                forall|k: int| 0 <= k < i ==> #[trigger] self.abilities@[k] == ability_ticked(start[k]),
                forall|k: int| i <= k < start.len() ==> #[trigger] self.abilities@[k] == start[k],
                self.grid == old(self).grid,
                self.conflicts == old(self).conflicts,
                self.players@ == old(self).players@,
                self.buildings@ == old(self).buildings@,
                self.ability_caches@ == old(self).ability_caches@,
                self.index == old(self).index,
                self.actions@ == old(self).actions@,
                self.points_timer == old(self).points_timer,
            decreases start.len() - i,
        {
            let mut a = self.abilities[i];
            if !a.active {
                if a.cooldown_ticks <= 1 {
                    a.active = true;
                    a.cooldown_ticks = a.spawn.cooldown_millis / 10;
                    a.spawn.timer_ticks = a.spawn.timer_ticks.saturating_sub(1);
                } else {
                    a.cooldown_ticks = a.cooldown_ticks - 1;
                }
            }
            let ghost before = self.abilities@;
            self.abilities.set(i, a);
            proof {
                assert forall|k: int| 0 <= k < self.abilities@.len() implies ability_ok(self.grid, #[trigger] self.abilities@[k], self.ability_caches@[k]@) by {
                    assert(ability_ok(self.grid, before[k], self.ability_caches@[k]@));
                }
            }
            i = i + 1;
        }
    }

    /// Lets every ready ability of the kind of pass `pass` act, in list
    /// order, appending the guaranteed conflicts it forces to `events`. One
    /// that acted is ready no more, and is marked to be removed when it had
    /// no activation left.
    fn ability_pass(&mut self, pass: usize, events: &mut Vec<ColorConflictGuarantees>)
        requires
            old(self).wf(),
            pass < 3,
            forall|k: int| 0 <= k < old(events)@.len() ==> (#[trigger] old(self).grid.spec_tile(old(events)@[k].tile_pos)) is Some,
        ensures
            final(self).wf(),
            forall|k: int| 0 <= k < final(events)@.len() ==> (#[trigger] final(self).grid.spec_tile(final(events)@[k].tile_pos)) is Some,
            final(self).abilities@.len() == old(self).abilities@.len(),
            forall|k: int| 0 <= k < final(self).abilities@.len() ==> #[trigger] final(self).abilities@[k] == acted_in_ability_pass(
                old(self).abilities@[k],
                pass as int,
            ),
            exists|chunks: Seq<Seq<ColorConflictGuarantees>>|
                ability_pass_chunks_ok(old(self).grid, old(self).abilities@, old(self).ability_caches@, pass as int, chunks)
                    && final(events)@ == old(events)@ + concat_guarantees(chunks),
            final(self).grid == old(self).grid,
            final(self).conflicts == old(self).conflicts,
            final(self).players@ == old(self).players@,
            final(self).buildings@ == old(self).buildings@,
            final(self).ability_caches@ == old(self).ability_caches@,
            final(self).index == old(self).index,
            final(self).actions@ == old(self).actions@,
            final(self).points_timer == old(self).points_timer,
    {
        let ghost start = self.abilities@;
        let ghost ev0 = events@;
        let ghost mut chunks: Seq<Seq<ColorConflictGuarantees>> = Seq::empty();
        proof {
            self.grid.lemma_grid_facts();
        }
        let mut i: usize = 0;
        while i < self.abilities.len()
            invariant
                self.wf(),
                pass < 3,
                start == old(self).abilities@,
                self.abilities@.len() == start.len(),
                i <= start.len(),
                self.grid.spec_size().x < 0x8000_0000,
                self.grid.spec_size().y < 0x8000_0000,
                forall|p: TilePos| #[trigger] self.grid.spec_tile(p) is Some ==> in_bounds(p, self.grid.spec_size()),
                forall|k: int| 0 <= k < events@.len() ==> (#[trigger] self.grid.spec_tile(events@[k].tile_pos)) is Some,
                forall|k: int| 0 <= k < i ==> #[trigger] self.abilities@[k] == acted_in_ability_pass(start[k], pass as int),
                forall|k: int| i <= k < start.len() ==> #[trigger] self.abilities@[k] == start[k],
                ev0 == old(events)@,
                chunks.len() == i,
                events@ == ev0 + concat_guarantees(chunks),
                forall|k: int| 0 <= k < i ==> if start[k].active && ability_kind_pass(start[k].spawn.ability) == pass {
                    ability_turn_ok(self.grid, start[k], self.ability_caches@[k]@, #[trigger] chunks[k])
                } else {
                    chunks[k].len() == 0
                },
                self.grid == old(self).grid,
                self.conflicts == old(self).conflicts,
                self.players@ == old(self).players@,
                self.buildings@ == old(self).buildings@,
                self.ability_caches@ == old(self).ability_caches@,
                self.index == old(self).index,
                self.actions@ == old(self).actions@,
                self.points_timer == old(self).points_timer,
            decreases start.len() - i,
        {
            let a = self.abilities[i];
            proof {
                assert(ability_ok(self.grid, self.abilities@[i as int], self.ability_caches@[i as int]@));
            }
            let ghost before = events@;
            if a.active && ability_pass_of(a.spawn.ability) == pass {
                let cache = &self.ability_caches[i];
                let destroy = match a.spawn.ability {
                    AbilityKind::Nuke(n) => {
                        let d = crate::abilities::simulate_nuke(a.spawn.player, &n, a.spawn.timer_ticks, cache, events);
                        proof {
                            assert forall|k: int| 0 <= k < events@.len() implies (#[trigger] self.grid.spec_tile(events@[k].tile_pos)) is Some by {
                                if k >= before.len() {
                                    let t = events@[k].tile_pos;
                                    assert(cache@.contains(t));
                                    let j = choose|j: int| 0 <= j < cache@.len() && cache@[j] == t;
                                    assert(self.grid.spec_tile(cache@[j]) is Some);
                                } else {
                                    assert(events@[k] == before[k]);
                                }
                            }
                        }
                        proof {
                            let c = events@.subrange(before.len() as int, events@.len() as int);
                            assert(c =~= events@.subrange(before.len() as int, events@.len() as int));
                            let counts = choose|counts: Seq<nat>|
                                counts.len() == cache@.len() && crate::abilities::counts_between(
                                    counts,
                                    n.min_tile_damage as nat,
                                    n.max_tile_damage as nat,
                                ) && events@ == before + crate::abilities::guarantees_per_tile(
                                    cache@,
                                    counts,
                                    crate::abilities::nuke_guarantee(a.spawn.player),
                                );
                            assert(c =~= crate::abilities::guarantees_per_tile(cache@, counts, crate::abilities::nuke_guarantee(a.spawn.player)));
                            assert(ability_turn_ok(self.grid, a, cache@, c));
                        }
                        d
                    },
                    AbilityKind::Expand(e) => {
                        proof {
                            assert forall|k: int| 0 <= k < cache@.len() implies crate::grid::neighbor_safe(#[trigger] cache@[k]) by {
                                assert(self.grid.spec_tile(cache@[k]) is Some);
                                assert(in_bounds(cache@[k], self.grid.spec_size()));
                            }
                        }
                        let d = crate::abilities::simulate_expand(
                            &self.grid,
                            a.spawn.player,
                            a.spawn.position,
                            &e,
                            a.spawn.timer_ticks,
                            cache,
                            events,
                        );
                        proof {
                            assert forall|k: int| 0 <= k < events@.len() implies (#[trigger] self.grid.spec_tile(events@[k].tile_pos)) is Some by {
                                if k >= before.len() {
                                    let t = events@[k].tile_pos;
                                    if t != a.spawn.position {
                                        assert(cache@.contains(t));
                                        let j = choose|j: int| 0 <= j < cache@.len() && cache@[j] == t;
                                        assert(self.grid.spec_tile(cache@[j]) is Some);
                                    }
                                } else {
                                    assert(events@[k] == before[k]);
                                }
                            }
                        }
                        proof {
                            let c = events@.subrange(before.len() as int, events@.len() as int);
                            assert(c =~= events@.subrange(before.len() as int, events@.len() as int));
                            let counts = choose|counts: Seq<nat>|
                                crate::abilities::counts_between(counts, e.min_tile_strengthen as nat, e.max_tile_strengthen as nat)
                                    && events@ == before + crate::abilities::guarantees_per_tile(
                                    seq![a.spawn.position] + crate::abilities::expand_targets(self.grid, a.spawn.player, cache@),
                                    counts,
                                    crate::abilities::expand_guarantee(a.spawn.player),
                                ) && counts.len() == 1 + crate::abilities::expand_targets(self.grid, a.spawn.player, cache@).len();
                            assert(c =~= crate::abilities::guarantees_per_tile(
                                seq![a.spawn.position] + crate::abilities::expand_targets(self.grid, a.spawn.player, cache@),
                                counts,
                                crate::abilities::expand_guarantee(a.spawn.player),
                            ));
                            assert(ability_turn_ok(self.grid, a, cache@, c));
                        }
                        d
                    },
                    AbilityKind::Fortify(f) => {
                        proof {
                            assert(in_bounds(a.spawn.position, self.grid.spec_size()));
                        }
                        let d = crate::abilities::simulate_fortify(
                            &self.grid,
                            a.spawn.player,
                            a.spawn.position,
                            &f,
                            a.spawn.timer_ticks,
                            events,
                        );
                        proof {
                            assert forall|k: int| 0 <= k < events@.len() implies (#[trigger] self.grid.spec_tile(events@[k].tile_pos)) is Some by {
                                if k >= before.len() {
                                    let t = events@[k].tile_pos;
                                    if t != a.spawn.position {
                                        crate::pathfinding::lemma_reach_passable(self.grid, a.spawn.position, f.strength as nat, t);
                                    }
                                } else {
                                    assert(events@[k] == before[k]);
                                }
                            }
                        }
                        proof {
                            let c = events@.subrange(before.len() as int, events@.len() as int);
                            assert(c =~= events@.subrange(before.len() as int, events@.len() as int));
                            let (listing, counts) = choose|listing: Seq<(TilePos, u32)>, counts: Seq<nat>|
                                crate::pathfinding::is_reach_listing(self.grid, a.spawn.position, f.strength as nat, listing)
                                    && listing.len() > 0 && listing[0] == (a.spawn.position, 0u32) && counts.len()
                                    == crate::abilities::owned_tiles(
                                    self.grid,
                                    a.spawn.player,
                                    crate::objects::listing_tiles(listing).drop_first(),
                                ).len() && crate::abilities::counts_between(
                                    counts,
                                    f.min_tile_strengthen as nat,
                                    (f.max_tile_strengthen - 1) as nat,
                                ) && events@ == before + crate::abilities::copies(
                                    crate::abilities::fortify_guarantee(a.spawn.player)(a.spawn.position),
                                    2,
                                ) + crate::abilities::guarantees_per_tile(
                                    crate::abilities::owned_tiles(self.grid, a.spawn.player, crate::objects::listing_tiles(listing).drop_first()),
                                    counts,
                                    crate::abilities::fortify_guarantee(a.spawn.player),
                                );
                            assert(c =~= crate::abilities::copies(crate::abilities::fortify_guarantee(a.spawn.player)(a.spawn.position), 2)
                                + crate::abilities::guarantees_per_tile(
                                crate::abilities::owned_tiles(self.grid, a.spawn.player, crate::objects::listing_tiles(listing).drop_first()),
                                counts,
                                crate::abilities::fortify_guarantee(a.spawn.player),
                            ));
                            assert(ability_turn_ok(self.grid, a, cache@, c));
                        }
                        d
                    },
                };
                let ghost abs_before = self.abilities@;
                self.abilities.set(i, AbilityState { active: false, destroy, ..a });
                proof {
                    assert forall|k: int| 0 <= k < self.abilities@.len() implies ability_ok(self.grid, #[trigger] self.abilities@[k], self.ability_caches@[k]@) by {
                        assert(ability_ok(self.grid, abs_before[k], self.ability_caches@[k]@));
                    }
                }
            }
            proof {
                let c = events@.subrange(before.len() as int, events@.len() as int);
                assert(before.len() <= events@.len());
                assert(events@ =~= before + c);
                let old_chunks = chunks;
                chunks = chunks.push(c);
                assert(chunks.drop_last() =~= old_chunks);
                assert(events@ =~= ev0 + concat_guarantees(chunks));
                assert(a == start[i as int]);
                if !(a.active && ability_kind_pass(a.spawn.ability) == pass) {
                    assert(events@ == before);
                    assert(c.len() == 0);
                }
                assert forall|k: int| 0 <= k < i + 1 implies if start[k].active && ability_kind_pass(start[k].spawn.ability) == pass {
                    ability_turn_ok(self.grid, start[k], self.ability_caches@[k]@, #[trigger] chunks[k])
                } else {
                    chunks[k].len() == 0
                } by {
                    if k < i {
                        assert(chunks[k] == old_chunks[k]);
                    }
                }
            }
            i = i + 1;
        }
        proof {
            assert(ability_pass_chunks_ok(self.grid, start, self.ability_caches@, pass as int, chunks));
        }
    }

    /// Lets every ready nuke act, in list order, appending the guaranteed
    /// conflicts it forces to `events` (see `simulate_nuke`).
    pub fn simulate_nuke_from_cache(&mut self, events: &mut Vec<ColorConflictGuarantees>)
        requires
            old(self).wf(),
            forall|k: int| 0 <= k < old(events)@.len() ==> (#[trigger] old(self).grid.spec_tile(old(events)@[k].tile_pos)) is Some,
        ensures
            final(self).wf(),
            forall|k: int| 0 <= k < final(events)@.len() ==> (#[trigger] final(self).grid.spec_tile(final(events)@[k].tile_pos)) is Some,
            final(self).abilities@.len() == old(self).abilities@.len(),
            forall|k: int| 0 <= k < final(self).abilities@.len() ==> #[trigger] final(self).abilities@[k] == acted_in_ability_pass(
                old(self).abilities@[k],
                0,
            ),
            exists|chunks: Seq<Seq<ColorConflictGuarantees>>|
                ability_pass_chunks_ok(old(self).grid, old(self).abilities@, old(self).ability_caches@, 0, chunks)
                    && final(events)@ == old(events)@ + concat_guarantees(chunks),
            final(self).grid == old(self).grid,
            final(self).conflicts == old(self).conflicts,
            final(self).players@ == old(self).players@,
            final(self).buildings@ == old(self).buildings@,
            final(self).ability_caches@ == old(self).ability_caches@,
            final(self).index == old(self).index,
            final(self).actions@ == old(self).actions@,
            final(self).points_timer == old(self).points_timer,
    {
        self.ability_pass(0, events);
    }

    /// Lets every ready expand act, in list order, appending the guaranteed
    /// conflicts it forces to `events` (see `simulate_expand`).
    pub fn simulate_expand_from_cache(&mut self, events: &mut Vec<ColorConflictGuarantees>)
        requires
            old(self).wf(),
            forall|k: int| 0 <= k < old(events)@.len() ==> (#[trigger] old(self).grid.spec_tile(old(events)@[k].tile_pos)) is Some,
        ensures
            final(self).wf(),
            forall|k: int| 0 <= k < final(events)@.len() ==> (#[trigger] final(self).grid.spec_tile(final(events)@[k].tile_pos)) is Some,
            final(self).abilities@.len() == old(self).abilities@.len(),
            forall|k: int| 0 <= k < final(self).abilities@.len() ==> #[trigger] final(self).abilities@[k] == acted_in_ability_pass(
                old(self).abilities@[k],
                1,
            ),
            exists|chunks: Seq<Seq<ColorConflictGuarantees>>|
                ability_pass_chunks_ok(old(self).grid, old(self).abilities@, old(self).ability_caches@, 1, chunks)
                    && final(events)@ == old(events)@ + concat_guarantees(chunks),
            final(self).grid == old(self).grid,
            final(self).conflicts == old(self).conflicts,
            final(self).players@ == old(self).players@,
            final(self).buildings@ == old(self).buildings@,
            final(self).ability_caches@ == old(self).ability_caches@,
            final(self).index == old(self).index,
            final(self).actions@ == old(self).actions@,
            final(self).points_timer == old(self).points_timer,
    {
        self.ability_pass(1, events);
    }

    /// Lets every ready fortify act, in list order, appending the guaranteed
    /// conflicts it forces to `events` (see `simulate_fortify`).
    pub fn simulate_fortifies(&mut self, events: &mut Vec<ColorConflictGuarantees>)
        requires
            old(self).wf(),
            forall|k: int| 0 <= k < old(events)@.len() ==> (#[trigger] old(self).grid.spec_tile(old(events)@[k].tile_pos)) is Some,
        ensures
            final(self).wf(),
            forall|k: int| 0 <= k < final(events)@.len() ==> (#[trigger] final(self).grid.spec_tile(final(events)@[k].tile_pos)) is Some,
            final(self).abilities@.len() == old(self).abilities@.len(),
            forall|k: int| 0 <= k < final(self).abilities@.len() ==> #[trigger] final(self).abilities@[k] == acted_in_ability_pass(
                old(self).abilities@[k],
                2,
            ),
            exists|chunks: Seq<Seq<ColorConflictGuarantees>>|
                ability_pass_chunks_ok(old(self).grid, old(self).abilities@, old(self).ability_caches@, 2, chunks)
                    && final(events)@ == old(events)@ + concat_guarantees(chunks),
            final(self).grid == old(self).grid,
            final(self).conflicts == old(self).conflicts,
            final(self).players@ == old(self).players@,
            final(self).buildings@ == old(self).buildings@,
            final(self).ability_caches@ == old(self).ability_caches@,
            final(self).index == old(self).index,
            final(self).actions@ == old(self).actions@,
            final(self).points_timer == old(self).points_timer,
    {
        self.ability_pass(2, events);
    }

    /// Lets every ready ability act, nukes first, then expands, then
    /// fortifies, each kind in list order, and returns the guaranteed
    /// conflicts they force, in that order. An ability that acted is ready no
    /// more, and is marked to be removed when it had no activation left.
    /// Every conflict is on a tile of the map.
    pub fn simulate_abilities(&mut self) -> (events: Vec<ColorConflictGuarantees>)
        requires
            old(self).wf(),
        ensures
            final(self).wf(),
            forall|k: int| 0 <= k < events@.len() ==> (#[trigger] final(self).grid.spec_tile(events@[k].tile_pos)) is Some,
            final(self).abilities@.len() == old(self).abilities@.len(),
            forall|i: int| 0 <= i < final(self).abilities@.len() ==> #[trigger] final(self).abilities@[i] == ability_acted(
                old(self).abilities@[i],
            ),
            exists|chunks: Seq<Seq<ColorConflictGuarantees>>|
                ability_turns_ok(old(self).grid, old(self).abilities@, old(self).ability_caches@, chunks) && events@
                    == ability_turns_events(old(self).abilities@, chunks),
            final(self).grid == old(self).grid,
            final(self).conflicts == old(self).conflicts,
            final(self).players@ == old(self).players@,
            final(self).buildings@ == old(self).buildings@,
            final(self).ability_caches@ == old(self).ability_caches@,
            final(self).index == old(self).index,
            final(self).actions@ == old(self).actions@,
            final(self).points_timer == old(self).points_timer,
    {
        let mut events: Vec<ColorConflictGuarantees> = Vec::new();
        let ghost a0 = self.abilities@;
        let ghost g = self.grid;
        let ghost cs = self.ability_caches@;
        self.simulate_nuke_from_cache(&mut events);
        let ghost a1 = self.abilities@;
        let ghost e1 = events@;
        self.simulate_expand_from_cache(&mut events);
        let ghost a2 = self.abilities@;
        let ghost e2 = events@;
        self.simulate_fortifies(&mut events);
        proof {
            let a3 = self.abilities@;
            let c0 = choose|c: Seq<Seq<ColorConflictGuarantees>>| ability_pass_chunks_ok(g, a0, cs, 0, c) && e1 == Seq::<ColorConflictGuarantees>::empty() + concat_guarantees(c);
            let c1 = choose|c: Seq<Seq<ColorConflictGuarantees>>| ability_pass_chunks_ok(g, a1, cs, 1, c) && e2 == e1 + concat_guarantees(c);
            let c2 = choose|c: Seq<Seq<ColorConflictGuarantees>>| ability_pass_chunks_ok(g, a2, cs, 2, c) && events@ == e2 + concat_guarantees(c);
            let chunks = Seq::new(
                a0.len(),
                |k: int| if ability_kind_pass(a0[k].spawn.ability) == 0 {
                    c0[k]
                } else if ability_kind_pass(a0[k].spawn.ability) == 1 {
                    c1[k]
                } else {
                    c2[k]
                },
            );
            assert forall|k: int| 0 <= k < a0.len() implies {
                &&& ability_pass_part(a0, chunks, 0)[k] == c0[k]
                &&& ability_pass_part(a0, chunks, 1)[k] == c1[k]
                &&& ability_pass_part(a0, chunks, 2)[k] == c2[k]
                &&& if a0[k].active {
                    ability_turn_ok(g, a0[k], cs[k]@, #[trigger] chunks[k])
                } else {
                    chunks[k].len() == 0
                }
            } by {
                assert(a1[k] == acted_in_ability_pass(a0[k], 0));
                assert(a2[k] == acted_in_ability_pass(a1[k], 1));
                assert(a3[k] == acted_in_ability_pass(a2[k], 2));
                assert(if a0[k].active && ability_kind_pass(a0[k].spawn.ability) == 0 {
                    ability_turn_ok(g, a0[k], cs[k]@, c0[k])
                } else {
                    c0[k].len() == 0
                });
                assert(if a1[k].active && ability_kind_pass(a1[k].spawn.ability) == 1 {
                    ability_turn_ok(g, a1[k], cs[k]@, c1[k])
                } else {
                    c1[k].len() == 0
                });
                assert(if a2[k].active && ability_kind_pass(a2[k].spawn.ability) == 2 {
                    ability_turn_ok(g, a2[k], cs[k]@, c2[k])
                } else {
                    c2[k].len() == 0
                });
                if ability_kind_pass(a0[k].spawn.ability) != 0 {
                    assert(c0[k] =~= Seq::<ColorConflictGuarantees>::empty());
                }
                if ability_kind_pass(a0[k].spawn.ability) != 1 {
                    assert(c1[k] =~= Seq::<ColorConflictGuarantees>::empty());
                }
                if ability_kind_pass(a0[k].spawn.ability) != 2 {
                    assert(c2[k] =~= Seq::<ColorConflictGuarantees>::empty());
                }
            }
            assert(ability_pass_part(a0, chunks, 0) =~= c0);
            assert(ability_pass_part(a0, chunks, 1) =~= c1);
            assert(ability_pass_part(a0, chunks, 2) =~= c2);
            assert(events@ =~= ability_turns_events(a0, chunks));
            assert(ability_turns_ok(g, a0, cs, chunks));
        }
        proof {
            assert forall|i: int| 0 <= i < self.abilities@.len() implies #[trigger] self.abilities@[i] == ability_acted(a0[i]) by {
                assert(a1[i] == acted_in_ability_pass(a0[i], 0));
                assert(a2[i] == acted_in_ability_pass(a1[i], 1));
                assert(self.abilities@[i] == acted_in_ability_pass(a2[i], 2));
            }
        }
        events
    }
}

/// Whether one of the first `n` abilities of `abs` has run out on the tile `p`.
pub open spec fn spent_before(abs: Seq<AbilityState>, n: int, p: TilePos) -> bool {
    exists|i: int| 0 <= i < n && (#[trigger] abs[i]).destroy && abs[i].spawn.position == p
}

/// The tile `p` of the map `g` once the abilities of `abs` that ran out are
/// gone: a tile where one stood holds no ability any more.
pub open spec fn cleared_tile(g: TileGrid, abs: Seq<AbilityState>, p: TilePos) -> Option<TileState> {
    clear_spent(g.spec_tile(p), abs, p)
}

/// The tile `tile` at `p` once the abilities of `abs` that ran out are gone:
/// where one stood, the tile holds no ability any more.
pub open spec fn clear_spent(tile: Option<TileState>, abs: Seq<AbilityState>, p: TilePos) -> Option<TileState> {
    if spent_before(abs, abs.len() as int, p) {
        match tile {
            Some(t) => Some(TileState { has_ability: false, ..t }),
            None => None,
        }
    } else {
        tile
    }
}

/// The abilities after one tick of their cooldowns.
pub open spec fn ticked_abilities(abs: Seq<AbilityState>) -> Seq<AbilityState> {
    abs.map_values(|a: AbilityState| ability_ticked(a))
}

impl GameWorld {
    /// Removes the abilities that ran out: their tiles hold no ability any
    /// more, each is forgotten in the index of the tiles it reaches, and the
    /// abilities that stay keep their order and their state.
    #[verifier::spinoff_prover]
    pub fn remove_spent_abilities(&mut self)
        requires
            old(self).wf(),
        ensures
            final(self).wf(),
            final(self).abilities@ == old(self).abilities@.filter(ability_kept()),
            final(self).grid.spec_size() == old(self).grid.spec_size(),
            forall|p: TilePos| #[trigger] final(self).grid.spec_tile(p) == cleared_tile(old(self).grid, old(self).abilities@, p),
            final(self).conflicts == old(self).conflicts,
            final(self).players@ == old(self).players@,
            final(self).actions@ == old(self).actions@,
            final(self).buildings@ == old(self).buildings@,
            final(self).counts == old(self).counts,
            final(self).points_timer == old(self).points_timer,
    {
        let ghost start = self.abilities@;
        let ghost g0 = self.grid;
        let mut spent: Vec<PlacedObject> = Vec::new();
        let mut i: usize = 0;
        while i < self.abilities.len()
            invariant
                self.wf(),
                self.abilities@ == start,
                self.grid == g0,
                i <= start.len(),
                forall|k: int| 0 <= k < spent@.len() ==> #[trigger] g0.spec_tile(spent@[k].tile_pos) is Some,
                forall|p: TilePos| (exists|k: int| 0 <= k < spent@.len() && #[trigger] spent@[k].tile_pos == p)
                    <==> #[trigger] spent_before(start, i as int, p),
            decreases start.len() - i,
        {
            let a = self.abilities[i];
            proof {
                assert(ability_ok(self.grid, self.abilities@[i as int], self.ability_caches@[i as int]@));
            }
            let ghost before = spent@;
            if a.destroy {
                spent.push(PlacedObject { id: a.id, player: a.spawn.player, tile_pos: a.spawn.position });
            }
            proof {
                assert forall|p: TilePos| (exists|k: int| 0 <= k < spent@.len() && #[trigger] spent@[k].tile_pos == p)
                    <==> #[trigger] spent_before(start, i + 1, p) by {
                    if exists|k: int| 0 <= k < spent@.len() && #[trigger] spent@[k].tile_pos == p {
                        let k = choose|k: int| 0 <= k < spent@.len() && #[trigger] spent@[k].tile_pos == p;
                        if k < before.len() {
                            assert(before[k].tile_pos == p);
                            assert(spent_before(start, i as int, p));
                            let j = choose|j: int| 0 <= j < i && (#[trigger] start[j]).destroy && start[j].spawn.position == p;
                            assert(0 <= j < i + 1 && start[j].destroy && start[j].spawn.position == p);
                        } else {
                            assert(start[i as int].destroy && start[i as int].spawn.position == p);
                        }
                    }
                    if spent_before(start, i + 1, p) {
                        let j = choose|j: int| 0 <= j < i + 1 && (#[trigger] start[j]).destroy && start[j].spawn.position == p;
                        if j < i {
                            assert(spent_before(start, i as int, p));
                            let k = choose|k: int| 0 <= k < before.len() && #[trigger] before[k].tile_pos == p;
                            assert(spent@[k] == before[k]);
                        } else {
                            assert(spent@[before.len() as int].tile_pos == p);
                        }
                    }
                }
                assert forall|k: int| 0 <= k < spent@.len() implies #[trigger] g0.spec_tile(spent@[k].tile_pos) is Some by {
                    if k < before.len() {
                        assert(spent@[k] == before[k]);
                        assert(g0.spec_tile(before[k].tile_pos) is Some);
                    } else {
                        assert(a == start[i as int]);
                        assert(spent@[k].tile_pos == a.spawn.position);
                        assert(g0.spec_tile(a.spawn.position) is Some);
                    }
                }
            }
            i = i + 1;
        }
        crate::objects::destroy_abilities(&mut self.grid, &spent);
        let ghost g1 = self.grid;
        proof {
            assert forall|p: TilePos| #[trigger] g1.spec_tile(p) == cleared_tile(g0, start, p) by {
                if spent_before(start, start.len() as int, p) {
                    let k = choose|k: int| 0 <= k < spent@.len() && #[trigger] spent@[k].tile_pos == p;
                    assert(exists|k: int| 0 <= k < spent@.len() && #[trigger] spent@[k].tile_pos == p);
                } else {
                    assert(!exists|k: int| 0 <= k < spent@.len() && #[trigger] spent@[k].tile_pos == p);
                }
            }
            assert forall|p: TilePos| (#[trigger] g1.spec_tile(p)) is Some <==> g0.spec_tile(p) is Some by {
                assert(g1.spec_tile(p) == cleared_tile(g0, start, p));
            }
            assert forall|k: int| 0 <= k < self.buildings@.len() implies {
                &&& (#[trigger] self.grid.spec_tile(self.buildings@[k].position)) is Some
                &&& building_can_run(self.buildings@[k].kind, self.caches@[k]@)
            } by {
                assert(g0.spec_tile(self.buildings@[k].position) is Some);
            }
            assert forall|k: int| 0 <= k < self.abilities@.len() implies ability_ok(self.grid, #[trigger] self.abilities@[k], self.ability_caches@[k]@) by {
                lemma_ability_ok_kept(g0, self.grid, self.abilities@[k], self.ability_caches@[k]@);
            }
        }
        let n = self.abilities.len();
        let mut i: usize = n;
        while i > 0
            invariant
                self.wf(),
                self.grid == g1,
                forall|p: TilePos| #[trigger] g1.spec_tile(p) == cleared_tile(g0, start, p),
                i <= start.len(),
                self.abilities@ == start.subrange(0, i as int) + start.subrange(i as int, start.len() as int).filter(ability_kept()),
                self.conflicts == old(self).conflicts,
                self.players@ == old(self).players@,
                self.actions@ == old(self).actions@,
                self.buildings@ == old(self).buildings@,
                self.counts == old(self).counts,
                self.points_timer == old(self).points_timer,
            decreases i,
        {
            let j = i - 1;
            let a = self.abilities[j];
            proof {
                assert(self.abilities@[j as int] == start[j as int]);
                assert(ability_ok(self.grid, self.abilities@[j as int], self.ability_caches@[j as int]@));
                self.grid.lemma_grid_facts();
                let rest = start.subrange(j + 1, start.len() as int);
                let tail = start.subrange(j as int, start.len() as int);
                assert(tail =~= seq![start[j as int]] + rest);
                assert(tail.drop_first() =~= rest);
                rest.lemma_filter_prepend(start[j as int], ability_kept());
            }
            if a.destroy {
                match a.spawn.ability {
                    AbilityKind::Nuke(nk) => {
                        uncache_object(&self.grid, &mut self.index, a.id, a.spawn.position, nk.strength, ReachShape::Spread);
                    },
                    AbilityKind::Expand(e) => {
                        uncache_object(&self.grid, &mut self.index, a.id, a.spawn.position, e.strength, ReachShape::Spread);
                    },
                    AbilityKind::Fortify(_) => {},
                }
                let ghost before = self.abilities@;
                let ghost caches_before = self.ability_caches@;
                self.abilities.remove(j);
                self.ability_caches.remove(j);
                proof {
                    assert(self.abilities@ =~= start.subrange(0, j as int) + start.subrange(j as int, start.len() as int).filter(ability_kept()));
                    assert forall|k: int| 0 <= k < self.abilities@.len() implies ability_ok(self.grid, #[trigger] self.abilities@[k], self.ability_caches@[k]@) by {
                        if k < j {
                            assert(self.abilities@[k] == before[k]);
                            assert(self.ability_caches@[k] == caches_before[k]);
                            assert(ability_ok(self.grid, before[k], caches_before[k]@));
                        } else {
                            assert(self.abilities@[k] == before[k + 1]);
                            assert(self.ability_caches@[k] == caches_before[k + 1]);
                            assert(ability_ok(self.grid, before[k + 1], caches_before[k + 1]@));
                        }
                    }
                }
            } else {
                proof {
                    assert(self.abilities@ =~= start.subrange(0, j as int) + start.subrange(j as int, start.len() as int).filter(ability_kept()));
                }
            }
            i = j;
        }
        assert(start.subrange(0, 0) =~= Seq::<AbilityState>::empty());
        assert(start.subrange(0, start.len() as int) =~= start);
        assert(self.abilities@ =~= start.filter(ability_kept()));
    }
}

/// An ability after one step: its cooldown ticks, then it takes its turn to
/// act.
pub open spec fn ability_stepped(a: AbilityState) -> AbilityState {
    ability_acted(ability_ticked(a))
}

impl GameWorld {
    /// One step of the abilities: their cooldowns tick, the ready ones act,
    /// the conflicts they force are registered and resolved (waking the
    /// buildings that reach a changed tile), and the abilities that ran out
    /// are removed. Each tile of the map is the old tile with the guaranteed
    /// conflicts the ready abilities forced on it in their turns applied
    /// (see `ability_turns_ok`, `ability_turns_events`, `guaranteed_by`), and
    /// holds no ability any more where a spent one stood. The players and
    /// their requests are untouched, and the buildings keep their identity,
    /// owner, place, kind and cooldown.
    pub fn ability_step(&mut self)
        requires
            old(self).wf(),
        ensures
            final(self).wf(),
            final(self).abilities@ == old(self).abilities@.map_values(|a: AbilityState| ability_stepped(a)).filter(
                ability_kept(),
            ),
            final(self).grid.spec_size() == old(self).grid.spec_size(),
            forall|p: TilePos| (#[trigger] final(self).grid.spec_tile(p)) is Some <==> old(self).grid.spec_tile(p) is Some,
            final(self).players@ == old(self).players@,
            final(self).actions@ == old(self).actions@,
            final(self).buildings@.len() == old(self).buildings@.len(),
            forall|i: int| 0 <= i < final(self).buildings@.len() ==> #[trigger] final(self).buildings@[i] == (BuildingState {
                simulate: final(self).buildings@[i].simulate,
                ..old(self).buildings@[i]
            }),
            final(self).points_timer == old(self).points_timer,
            exists|chunks: Seq<Seq<ColorConflictGuarantees>>|
                #[trigger] ability_turns_ok(old(self).grid, ticked_abilities(old(self).abilities@), old(self).ability_caches@, chunks)
                    && forall|p: TilePos| #[trigger] final(self).grid.spec_tile(p) == clear_spent(
                    crate::resolve::guaranteed_by(
                        old(self).grid,
                        crate::conflicts::guarantees_for(ability_turns_events(ticked_abilities(old(self).abilities@), chunks), p),
                        p,
                    ),
                    old(self).abilities@.map_values(|a: AbilityState| ability_stepped(a)),
                    p,
                ),
    {
        self.update_ability_timers();
        let ghost at = self.abilities@;
        proof {
            assert(at =~= ticked_abilities(old(self).abilities@));
        }
        let events = self.simulate_abilities();
        let ghost chunks = choose|chunks: Seq<Seq<ColorConflictGuarantees>>|
            ability_turns_ok(old(self).grid, at, old(self).ability_caches@, chunks) && events@ == ability_turns_events(at, chunks);
        proof {
            self.conflicts.guaranteed_conflicts.lemma_keys();
        }
        proof {
            assert(self.abilities@ =~= old(self).abilities@.map_values(|a: AbilityState| ability_stepped(a)));
        }
        let no_events: Vec<ColorConflictEvent> = Vec::new();
        let ghost before_update = self.conflicts;
        update_color_conflicts(&mut self.conflicts, &no_events, &events);
        proof {
            if self.conflicts.conflicts.spec_keys().len() > 0 {
                let p = self.conflicts.conflicts.spec_keys()[0];
                assert(self.conflicts.conflicts.spec_keys().contains(p));
                assert(!before_update.conflicts.spec_keys().contains(p));
            }
            assert forall|i: int| 0 <= i < self.conflicts.guaranteed_conflicts.spec_keys().len()
                implies (#[trigger] self.grid.spec_tile(self.conflicts.guaranteed_conflicts.spec_keys()[i])) is Some by {
                let p = self.conflicts.guaranteed_conflicts.spec_keys()[i];
                assert(self.conflicts.guaranteed_conflicts.spec_keys().contains(p));
                assert(!before_update.guaranteed_conflicts.spec_keys().contains(p));
                let k = choose|k: int| 0 <= k < events@.len() && #[trigger] events@[k].tile_pos == p;
                assert(self.grid.spec_tile(events@[k].tile_pos) is Some);
            }
        }
        let ghost grid_before = self.grid;
        let ghost conflicts_before = self.conflicts;
        let wakes = crate::resolve::handle_color_conflict_guarantees(&mut self.conflicts, &mut self.counts, &mut self.grid, &self.index);
        proof {
            assert forall|p: TilePos| (#[trigger] self.grid.spec_tile(p)) is Some <==> grid_before.spec_tile(p) is Some by {
                assert(self.grid.spec_tile(p) == crate::resolve::guaranteed_tile(grid_before, conflicts_before, p));
            }
            assert forall|i: int| 0 <= i < self.buildings@.len() implies {
                &&& (#[trigger] self.grid.spec_tile(self.buildings@[i].position)) is Some
                &&& building_can_run(self.buildings@[i].kind, self.caches@[i]@)
            } by {
                assert(grid_before.spec_tile(self.buildings@[i].position) is Some);
            }
            assert forall|i: int| 0 <= i < self.abilities@.len() implies ability_ok(self.grid, #[trigger] self.abilities@[i], self.ability_caches@[i]@) by {
                lemma_ability_ok_kept(grid_before, self.grid, self.abilities@[i], self.ability_caches@[i]@);
            }
        }
        self.wake_buildings(&wakes);
        let ghost g2 = self.grid;
        let ghost stepped = self.abilities@;
        self.remove_spent_abilities();
        proof {
            assert forall|p: TilePos| (#[trigger] self.grid.spec_tile(p)) is Some <==> old(self).grid.spec_tile(p) is Some by {
                assert(self.grid.spec_tile(p) == cleared_tile(g2, stepped, p));
                assert(grid_before.spec_tile(p) is Some <==> old(self).grid.spec_tile(p) is Some);
            }
            assert forall|p: TilePos| #[trigger] self.grid.spec_tile(p) == clear_spent(
                crate::resolve::guaranteed_by(
                    old(self).grid,
                    crate::conflicts::guarantees_for(ability_turns_events(at, chunks), p),
                    p,
                ),
                stepped,
                p,
            ) by {
                assert(before_update.guaranteed_conflicts.spec_at(p) == Seq::<crate::conflicts::GuaranteeEntry>::empty());
                assert(conflicts_before.guaranteed_conflicts.spec_at(p) =~= crate::conflicts::guarantees_for(events@, p));
                assert(g2.spec_tile(p) == crate::resolve::guaranteed_tile(grid_before, conflicts_before, p));
                assert(self.grid.spec_tile(p) == cleared_tile(g2, stepped, p));
            }
        }
    }
}

/// The buildings the first `n` players ask to place, in player order: each
/// player's id, the building it selected, and where (see `placement`).
pub open spec fn building_requests_of(
    players: Seq<PlayerRecord>,
    actions: Seq<Actions>,
    cursor_tile: Option<TilePos>,
    n: nat,
) -> Seq<(usize, BuildingTypes, TilePos)>
    decreases n,
{
    if n == 0 {
        Seq::empty()
    } else {
        let prev = building_requests_of(players, actions, cursor_tile, (n - 1) as nat);
        let a = actions[n - 1];
        match placement(a.try_place_building, a.target_world_pos, cursor_tile, a.building_tile_pos) {
            Some(p) => prev.push((players[n - 1].id, a.selected_building, p)),
            None => prev,
        }
    }
}

impl GameWorld {
    /// The buildings to spawn for the players' requests this step, in
    /// player order, `cursor_tile` being the tile under the cursor: for each
    /// player whose requests name a place for a building, its id, the
    /// building it selected, and the place. Spawning them is left to the
    /// caller.
    pub fn place_building(&self, cursor_tile: Option<TilePos>) -> (r: Vec<(usize, BuildingTypes, TilePos)>)
        requires
            self.wf(),
        ensures
            r@ == building_requests_of(self.players@, self.actions@, cursor_tile, self.players@.len()),
    {
        let mut r: Vec<(usize, BuildingTypes, TilePos)> = Vec::new();
        let mut i: usize = 0;
        while i < self.players.len()
            invariant
                self.wf(),
                i <= self.players@.len(),
                r@ == building_requests_of(self.players@, self.actions@, cursor_tile, i as nat),
            decreases self.players@.len() - i,
        {
            let a = self.actions[i];
            match building_placement(&a, cursor_tile) {
                Some(p) => {
                    r.push((self.players[i].id, a.selected_building, p));
                },
                None => {},
            }
            i = i + 1;
        }
        r
    }
}

} // verus!
