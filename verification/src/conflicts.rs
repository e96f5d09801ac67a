//! Colour conflicts: the requests objects make to colour tiles, and how the
//! requests registered on a tile decide what becomes of it.

use vstd::prelude::*;
use crate::color::{TileColor, TileColorStrength};
use crate::grid::{TileClaim, TilePos, TileState, TileType};
use crate::objects::ObjectId;
use crate::tile_lists::TileLists;

verus! {

/// A request by an object of `player` to colour the tile at `tile_pos`.
#[derive(Clone, Copy, PartialEq, Eq, Structural, Debug, Hash)]
pub struct ColorConflictEvent {
    pub from_object: ObjectId,
    pub tile_pos: TilePos,
    pub player: usize,
}

/// What a guaranteed conflict does to a tile.
#[derive(Clone, Copy, PartialEq, Eq, Structural, Debug, Hash)]
pub enum ConflictType {
    Natural,
    Damage,
    Stengthen,
}

/// A conflict an ability forces on a tile, whatever other requests say.
#[derive(Clone, Copy, PartialEq, Eq, Structural, Debug, Hash)]
pub struct ColorConflictGuarantees {
    pub tile_pos: TilePos,
    pub casting_player: usize,
    pub affect_casting_player: bool,
    pub affect_neutral: bool,
    pub affect_other_players: bool,
    pub conflict_type: ConflictType,
}

/// One guaranteed conflict as stored on its tile: casting player, whether it
/// affects the caster's tiles, neutral tiles, other players' tiles, and what
/// it does.
pub type GuaranteeEntry = (usize, bool, bool, bool, ConflictType);

/// The conflicts registered on each tile during one simulation step: the
/// requests `(player, object)` and the guaranteed conflicts.
pub struct ColorConflicts {
    pub conflicts: TileLists<(usize, usize)>,
    pub guaranteed_conflicts: TileLists<GuaranteeEntry>,
}

/// How many tiles player 0 gained and lost in the last resolution.
#[derive(Clone, Copy, PartialEq, Eq, Structural, Debug, Hash)]
pub struct PlayerTileChangedCount {
    pub player_gained_tiles: u32,
    pub player_lost_tiles: u32,
}

impl ColorConflicts {
    pub open spec fn wf(self) -> bool {
        self.conflicts.wf() && self.guaranteed_conflicts.wf()
    }

    /// No conflict registered anywhere.
    pub fn new() -> (c: ColorConflicts)
        ensures
            c.wf(),
            c.conflicts.spec_keys().len() == 0,
            c.guaranteed_conflicts.spec_keys().len() == 0,
            forall|p: TilePos| #[trigger] c.conflicts.spec_at(p) == Seq::<(usize, usize)>::empty(),
            forall|p: TilePos| #[trigger] c.guaranteed_conflicts.spec_at(p) == Seq::<GuaranteeEntry>::empty(),
    {
        ColorConflicts { conflicts: TileLists::new(), guaranteed_conflicts: TileLists::new() }
    }

    /// Records that an object `from_object` of `player` asks to colour `tile_pos`.
    pub fn register_conflict(&mut self, tile_pos: TilePos, player: usize, from_object: usize)
        requires
            old(self).wf(),
        ensures
            final(self).wf(),
            final(self).conflicts.spec_at(tile_pos) == old(self).conflicts.spec_at(tile_pos).push(
                (player, from_object),
            ),
            forall|q: TilePos| q != tile_pos ==> #[trigger] final(self).conflicts.spec_at(q)
                == old(self).conflicts.spec_at(q),
            forall|q: TilePos| #[trigger] final(self).conflicts.spec_keys().contains(q)
                ==> old(self).conflicts.spec_keys().contains(q) || q == tile_pos,
            final(self).guaranteed_conflicts == old(self).guaranteed_conflicts,
    {
        self.conflicts.add(tile_pos, (player, from_object));
    }

    /// Records a guaranteed conflict on `tile_pos`.
    pub fn register_conflict_guarantee(
        &mut self,
        tile_pos: TilePos,
        casting_player: usize,
        affect_casting_player: bool,
        affect_neutral: bool,
        affect_other_players: bool,
        conflict_type: ConflictType,
    )
        requires
            old(self).wf(),
        ensures
            final(self).wf(),
            final(self).guaranteed_conflicts.spec_at(tile_pos) == old(self).guaranteed_conflicts.spec_at(
                tile_pos,
            ).push((casting_player, affect_casting_player, affect_neutral, affect_other_players, conflict_type)),
            forall|q: TilePos| q != tile_pos ==> #[trigger] final(self).guaranteed_conflicts.spec_at(q)
                == old(self).guaranteed_conflicts.spec_at(q),
            forall|q: TilePos| #[trigger] final(self).guaranteed_conflicts.spec_keys().contains(q)
                ==> old(self).guaranteed_conflicts.spec_keys().contains(q) || q == tile_pos,
            final(self).conflicts == old(self).conflicts,
    {
        self.guaranteed_conflicts.add(
            tile_pos,
            (casting_player, affect_casting_player, affect_neutral, affect_other_players, conflict_type),
        );
    }
}

/// An object of `player` can change a tile: it is colourable, and it is not
/// already `player`'s at full strength.
pub open spec fn converts(player: usize, tile_type: TileType, claim: Option<TileClaim>) -> bool {
    tile_type == TileType::Colorable && match claim {
        Some(c) => c.player != player || c.color.tile_color_strength != TileColorStrength::Five,
        None => true,
    }
}

fn is_full(c: &TileColor) -> (full: bool)
    ensures
        full == (c.tile_color_strength == TileColorStrength::Five),
{
    c.max_strength()
}

/// Asks to colour a tile for `player` when the object can change it, and says
/// whether it asked.
pub fn convert_tile(
    from_object: &ObjectId,
    player: &usize,
    tile_pos: TilePos,
    tile_type: TileType,
    claim: &Option<TileClaim>,
    events: &mut Vec<ColorConflictEvent>,
) -> (asked: bool)
    ensures
        asked == converts(*player, tile_type, *claim),
        final(events)@ == if asked {
            old(events)@.push(ColorConflictEvent { from_object: *from_object, tile_pos, player: *player })
        } else {
            old(events)@
        },
{
    if tile_type != TileType::Colorable {
        return false;
    }
    match claim {
        Some(c) => {
            if *player == c.player {
                if !is_full(&c.color) {
                    events.push(ColorConflictEvent { from_object: *from_object, tile_pos, player: *player });
                    return true;
                }
                false
            } else {
                events.push(ColorConflictEvent { from_object: *from_object, tile_pos, player: *player });
                true
            }
        },
        None => {
            events.push(ColorConflictEvent { from_object: *from_object, tile_pos, player: *player });
            true
        },
    }
}

/// The guaranteed conflict an ability of `player` forces on a tile, if any:
/// none on a tile that cannot be coloured; on the caster's own tile only when
/// it affects the caster; on another player's tile only when it affects other
/// players; on a neutral tile always, marked as affecting neutral tiles.
pub open spec fn forced_guarantee(
    player: usize,
    affect_casting_player: bool,
    affect_neutral: bool,
    affect_other_players: bool,
    conflict_type: ConflictType,
    tile_pos: TilePos,
    tile_type: TileType,
    claim: Option<TileClaim>,
) -> Option<ColorConflictGuarantees> {
    let g = ColorConflictGuarantees {
        tile_pos,
        casting_player: player,
        affect_casting_player,
        affect_neutral,
        affect_other_players,
        conflict_type,
    };
    if tile_type != TileType::Colorable {
        None
    } else {
        match claim {
            Some(c) => if c.player == player && affect_casting_player {
                Some(g)
            } else if affect_other_players {
                Some(g)
            } else {
                None
            },
            None => Some(ColorConflictGuarantees { affect_neutral: true, ..g }),
        }
    }
}

/// Registers a guaranteed conflict on a tile for `player` where one applies
/// (see `forced_guarantee`), and says whether the tile is a colourable
/// tile the player holds.
pub fn register_guaranteed_color_conflict(
    player: &usize,
    affect_casting_player: bool,
    affect_neutral: bool,
    affect_other_players: bool,
    conflict_type: ConflictType,
    tile_pos: TilePos,
    tile_type: TileType,
    claim: &Option<TileClaim>,
    events: &mut Vec<ColorConflictGuarantees>,
) -> (own_tile: bool)
    ensures
        own_tile == (tile_type == TileType::Colorable && match *claim {
            Some(c) => c.player == *player,
            None => false,
        }),
        final(events)@ == match forced_guarantee(
            *player,
            affect_casting_player,
            affect_neutral,
            affect_other_players,
            conflict_type,
            tile_pos,
            tile_type,
            *claim,
        ) {
            Some(g) => old(events)@.push(g),
            None => old(events)@,
        },
{
    if tile_type != TileType::Colorable {
        return false;
    }
    let g = ColorConflictGuarantees {
        tile_pos,
        casting_player: *player,
        affect_casting_player,
        affect_neutral,
        affect_other_players,
        conflict_type,
    };
    match claim {
        Some(c) => {
            if *player == c.player && affect_casting_player {
                events.push(g);
            } else if affect_other_players {
                events.push(g);
            }
            return *player == c.player;
        },
        None => {
            events.push(ColorConflictGuarantees { affect_neutral: true, ..g });
        },
    }
    false
}

/// The request a spreading building makes for each tile its reach visits.
pub struct ColorConflictCallback;

impl ColorConflictCallback {
    /// The request an object `object_id` of `player` makes while its reach
    /// visits `node_pos`: the same as `convert_tile` would make; none where
    /// there is no tile.
    pub fn foreach_tile(
        &self,
        object_id: ObjectId,
        player: usize,
        node_pos: TilePos,
        tile: Option<TileState>,
        events: &mut Vec<ColorConflictEvent>,
    )
        ensures
            final(events)@ == match tile {
                Some(t) => if converts(player, t.tile_type, t.claim) {
                    old(events)@.push(ColorConflictEvent { from_object: object_id, tile_pos: node_pos, player })
                } else {
                    old(events)@
                },
                None => old(events)@,
            },
    {
        if let Some(t) = tile {
            let _ = convert_tile(&object_id, &player, node_pos, t.tile_type, &t.claim, events);
        }
    }
}

/// Whether `player` can still colour a tile: it exists, is colourable, and is
/// not already `player`'s at full strength.
pub fn check_if_tile_is_colorable(tile: Option<TileState>, player_id: usize) -> (r: bool)
    ensures
        r == match tile {
            Some(t) => converts(player_id, t.tile_type, t.claim),
            None => false,
        },
{
    match tile {
        Some(t) => {
            if t.tile_type != TileType::Colorable {
                return false;
            }
            match t.claim {
                Some(c) => !(c.player == player_id && is_full(&c.color)),
                None => true,
            }
        },
        None => false,
    }
}

/// The reach of a spreading building may step onto a tile when it exists and
/// is colourable.
pub struct IsColorableNodeCheck;

impl IsColorableNodeCheck {
    pub fn is_valid_move(&self, tile: Option<TileState>) -> (r: bool)
        ensures
            r == match tile {
                Some(t) => t.tile_type == TileType::Colorable,
                None => false,
            },
    {
        match tile {
            Some(t) => t.tile_type == TileType::Colorable,
            None => false,
        }
    }
}

/// A move onto a tile is valid when the tile is held by the moving object's
/// player.
pub struct NodeIsPlayersCheck;

impl NodeIsPlayersCheck {
    /// `moving_player` is the player of the moving object, if it has one.
    pub fn is_valid_move(&self, moving_player: Option<usize>, tile: Option<TileState>) -> (r: bool)
        ensures
            r == match (moving_player, tile) {
                (Some(p), Some(t)) => match t.claim {
                    Some(c) => c.player == p,
                    None => false,
                },
                _ => false,
            },
    {
        match (moving_player, tile) {
            (Some(p), Some(t)) => match t.claim {
                Some(c) => c.player == p,
                None => false,
            },
            _ => false,
        }
    }
}

/// The requests `(player, object)` among `events` for tile `p`, in order.
pub open spec fn requests_for(events: Seq<ColorConflictEvent>, p: TilePos) -> Seq<(usize, usize)>
    decreases events.len(),
{
    if events.len() == 0 {
        Seq::empty()
    } else {
        let prev = requests_for(events.drop_last(), p);
        let e = events.last();
        if e.tile_pos == p {
            prev.push((e.player, e.from_object.id))
        } else {
            prev
        }
    }
}

/// The entry stored for a guaranteed conflict when the step's events are
/// registered: the flag for the caster's tiles is stored in the place of the
/// flag for neutral tiles, and the other way round.
pub open spec fn stored_guarantee(g: ColorConflictGuarantees) -> GuaranteeEntry {
    (g.casting_player, g.affect_neutral, g.affect_casting_player, g.affect_other_players, g.conflict_type)
}

/// The stored entries of the guaranteed conflicts among `events` for tile
/// `p`, in order.
pub open spec fn guarantees_for(events: Seq<ColorConflictGuarantees>, p: TilePos) -> Seq<GuaranteeEntry>
    decreases events.len(),
{
    if events.len() == 0 {
        Seq::empty()
    } else {
        let prev = guarantees_for(events.drop_last(), p);
        let g = events.last();
        if g.tile_pos == p {
            prev.push(stored_guarantee(g))
        } else {
            prev
        }
    }
}

/// Registers the requests and the guaranteed conflicts of a step, each on
/// its tile after those already there, in the order they came.
pub fn update_color_conflicts(
    color_conflicts: &mut ColorConflicts,
    events: &Vec<ColorConflictEvent>,
    guarantee_events: &Vec<ColorConflictGuarantees>,
)
    requires
        old(color_conflicts).wf(),
    ensures
        final(color_conflicts).wf(),
        forall|p: TilePos| #[trigger] final(color_conflicts).conflicts.spec_at(p)
            == old(color_conflicts).conflicts.spec_at(p) + requests_for(events@, p),
        forall|p: TilePos| #[trigger] final(color_conflicts).guaranteed_conflicts.spec_at(p)
            == old(color_conflicts).guaranteed_conflicts.spec_at(p) + guarantees_for(guarantee_events@, p),
        forall|p: TilePos| #[trigger] final(color_conflicts).conflicts.spec_keys().contains(p)
            ==> old(color_conflicts).conflicts.spec_keys().contains(p) || exists|i: int|
                0 <= i < events@.len() && #[trigger] events@[i].tile_pos == p,
        forall|p: TilePos| #[trigger] final(color_conflicts).guaranteed_conflicts.spec_keys().contains(p)
            ==> old(color_conflicts).guaranteed_conflicts.spec_keys().contains(p) || exists|i: int|
                0 <= i < guarantee_events@.len() && #[trigger] guarantee_events@[i].tile_pos == p,
{
    let ghost start = *color_conflicts;
    let mut i: usize = 0;
    while i < events.len()
        invariant
            color_conflicts.wf(),
            i <= events@.len(),
            color_conflicts.guaranteed_conflicts == start.guaranteed_conflicts,
            forall|p: TilePos| #[trigger] color_conflicts.conflicts.spec_at(p)
                == start.conflicts.spec_at(p) + requests_for(events@.take(i as int), p),
            forall|p: TilePos| #[trigger] color_conflicts.conflicts.spec_keys().contains(p)
                ==> start.conflicts.spec_keys().contains(p) || exists|k: int|
                    0 <= k < i && #[trigger] events@[k].tile_pos == p,
        decreases events@.len() - i,
    {
        let e = events[i];
        let ghost keys_before = color_conflicts.conflicts.spec_keys();
        color_conflicts.register_conflict(e.tile_pos, e.player, e.from_object.id);
        proof {
            assert forall|p: TilePos| #[trigger] color_conflicts.conflicts.spec_keys().contains(p)
                implies start.conflicts.spec_keys().contains(p) || exists|k: int|
                    0 <= k < i + 1 && #[trigger] events@[k].tile_pos == p by {
                if p == e.tile_pos {
                    assert(events@[i as int].tile_pos == p);
                } else {
                    assert(keys_before.contains(p));
                }
            }
            let s = events@.take(i + 1);
            assert(s.drop_last() =~= events@.take(i as int));
            assert forall|p: TilePos| #[trigger] color_conflicts.conflicts.spec_at(p)
                == start.conflicts.spec_at(p) + requests_for(s, p) by {
                assert(start.conflicts.spec_at(p) + requests_for(events@.take(i as int), p).push((e.player, e.from_object.id))
                    =~= (start.conflicts.spec_at(p) + requests_for(events@.take(i as int), p)).push((e.player, e.from_object.id)));
            }
        }
        i = i + 1;
    }
    assert(events@.take(events@.len() as int) =~= events@);
    let mut j: usize = 0;
    while j < guarantee_events.len()
        invariant
            color_conflicts.wf(),
            j <= guarantee_events@.len(),
            forall|p: TilePos| #[trigger] color_conflicts.conflicts.spec_at(p)
                == start.conflicts.spec_at(p) + requests_for(events@, p),
            forall|p: TilePos| #[trigger] color_conflicts.conflicts.spec_keys().contains(p)
                ==> start.conflicts.spec_keys().contains(p) || exists|k: int|
                    0 <= k < events@.len() && #[trigger] events@[k].tile_pos == p,
            forall|p: TilePos| #[trigger] color_conflicts.guaranteed_conflicts.spec_at(p)
                == start.guaranteed_conflicts.spec_at(p) + guarantees_for(guarantee_events@.take(j as int), p),
            forall|p: TilePos| #[trigger] color_conflicts.guaranteed_conflicts.spec_keys().contains(p)
                ==> start.guaranteed_conflicts.spec_keys().contains(p) || exists|k: int|
                    0 <= k < j && #[trigger] guarantee_events@[k].tile_pos == p,
        decreases guarantee_events@.len() - j,
    {
        let g = guarantee_events[j];
        let ghost gkeys_before = color_conflicts.guaranteed_conflicts.spec_keys();
        color_conflicts.register_conflict_guarantee(
            g.tile_pos,
            g.casting_player,
            g.affect_neutral,
            g.affect_casting_player,
            g.affect_other_players,
            g.conflict_type,
        );
        proof {
            assert forall|p: TilePos| #[trigger] color_conflicts.guaranteed_conflicts.spec_keys().contains(p)
                implies start.guaranteed_conflicts.spec_keys().contains(p) || exists|k: int|
                    0 <= k < j + 1 && #[trigger] guarantee_events@[k].tile_pos == p by {
                if p == g.tile_pos {
                    assert(guarantee_events@[j as int].tile_pos == p);
                } else {
                    assert(gkeys_before.contains(p));
                }
            }
            let s = guarantee_events@.take(j + 1);
            assert(s.drop_last() =~= guarantee_events@.take(j as int));
            assert forall|p: TilePos| #[trigger] color_conflicts.guaranteed_conflicts.spec_at(p)
                == start.guaranteed_conflicts.spec_at(p) + guarantees_for(s, p) by {
                assert(start.guaranteed_conflicts.spec_at(p) + guarantees_for(guarantee_events@.take(j as int), p).push(stored_guarantee(g))
                    =~= (start.guaranteed_conflicts.spec_at(p) + guarantees_for(guarantee_events@.take(j as int), p)).push(stored_guarantee(g)));
            }
        }
        j = j + 1;
    }
    assert(guarantee_events@.take(guarantee_events@.len() as int) =~= guarantee_events@);
}

} // verus!
