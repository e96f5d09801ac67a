//! What the screen shows of the game: the shade each tile fades between when
//! it changes, the territory bars, the letters of objects, and the colour
//! palettes the player can pick from.

use vstd::prelude::*;
use crate::abilities::Abilities;
use crate::buildings::BuildingTypes;
use crate::color::{TileColor, TileColorStrength};
use crate::grid::TileType;
use crate::settings::StepButtons;

verus! {

/// What a tile showed before its last change: its colour and its holder.
#[derive(Clone, Copy, PartialEq, Eq, Structural, Debug, Hash)]
pub struct OldTileState {
    pub tile_color: Option<TileColor>,
    pub player_id: Option<usize>,
}

impl Default for OldTileState {
    /// A tile that showed no colour and no holder.
    fn default() -> (s: Self)
        ensures
            s.tile_color is None,
            s.player_id is None,
    {
        OldTileState { tile_color: None, player_id: None }
    }
}

/// What an object showed before its last change: the strength of its tile.
#[derive(Clone, Copy, PartialEq, Eq, Structural, Debug, Hash)]
pub struct OldObjectState {
    pub tile_color_strength: Option<TileColorStrength>,
}

impl Default for OldObjectState {
    /// An object that showed no strength.
    fn default() -> (s: Self)
        ensures
            s.tile_color_strength is None,
    {
        OldObjectState { tile_color_strength: None }
    }
}

/// The palette entry a tile is painted with.
#[derive(Clone, Copy, PartialEq, Eq, Structural, Debug, Hash)]
pub enum TileShade {
    /// The colour of tiles that can never be coloured.
    NonColorable,
    /// The colour of colourable tiles that no player holds.
    Colorable,
    /// The colour of a player.
    Player(usize),
}

/// The shade of a tile of the given terrain that no player holds.
pub open spec fn base_shade(tile_type: TileType) -> TileShade {
    match tile_type {
        TileType::NonColorable => TileShade::NonColorable,
        TileType::Colorable => TileShade::Colorable,
    }
}

/// The shade a tile with the given terrain and holder is painted with.
pub open spec fn shade_of(tile_type: TileType, holder: Option<usize>) -> TileShade {
    match holder {
        Some(p) => TileShade::Player(p),
        None => base_shade(tile_type),
    }
}

/// The shades a changed tile fades between: from the shade of its last
/// holder, as recorded in `old` (its terrain's shade when nothing was
/// recorded or nobody held it), to the shade of its holder now.
pub fn tile_tween_shades(old: Option<OldTileState>, tile_type: TileType, holder: Option<usize>) -> (r: (TileShade, TileShade))
    ensures
        r.0 == shade_of(tile_type, match old {
            Some(o) => o.player_id,
            None => None,
        }),
        r.1 == shade_of(tile_type, holder),
{
    let base = match tile_type {
        TileType::NonColorable => TileShade::NonColorable,
        TileType::Colorable => TileShade::Colorable,
    };
    let start = match old {
        Some(o) => match o.player_id {
            Some(p) => TileShade::Player(p),
            None => base,
        },
        None => base,
    };
    let end = match holder {
        Some(p) => TileShade::Player(p),
        None => base,
    };
    (start, end)
}

/// The scale of the coloured square drawn on a tile, in tenths of the tile:
/// a neutral tile and a full one fill it, the weaker strengths draw it at
/// half and then one tenth larger per step.
pub open spec fn scale_tenths_of(s: TileColorStrength) -> u32 {
    match s {
        TileColorStrength::Neutral => 10,
        TileColorStrength::One => 5,
        TileColorStrength::Two => 6,
        TileColorStrength::Three => 7,
        TileColorStrength::Four => 8,
        TileColorStrength::Five => 10,
    }
}

impl TileColor {
    /// The scale of the square drawn for this colour, in tenths of a tile.
    pub fn scale_tenths(&self) -> (t: u32)
        ensures
            t == scale_tenths_of(self.tile_color_strength),
    {
        match self.tile_color_strength {
            TileColorStrength::Neutral => 10,
            TileColorStrength::One => 5,
            TileColorStrength::Two => 6,
            TileColorStrength::Three => 7,
            TileColorStrength::Four => 8,
            TileColorStrength::Five => 10,
        }
    }
}

/// The scale, in tenths of a tile, a changed tile's square grows or shrinks
/// from when the tile has no square drawn yet: that of its recorded colour,
/// and 0 when nothing was recorded.
pub fn start_scale_tenths(old: Option<OldTileState>) -> (t: u32)
    ensures
        t == match old {
            Some(o) => match o.tile_color {
                Some(c) => scale_tenths_of(c.tile_color_strength),
                None => 0,
            },
            None => 0,
        },
{
    match old {
        Some(o) => match o.tile_color {
            Some(c) => c.scale_tenths(),
            None => 0,
        },
        None => 0,
    }
}

/// The number of cells lit in a territory bar of seven cells for a player
/// holding `count` of `total` tiles: one for each of the shares 0, 1/5,
/// 2/5, 1/2, 3/5, 4/5 and 1 that the player's share exceeds.
pub open spec fn bar_level(count: int, total: int) -> int {
    (if count > 0 { 1int } else { 0int }) + (if 5 * count > total { 1int } else { 0int }) + (if 5 * count > 2
        * total { 1int } else { 0int }) + (if 2 * count > total { 1int } else { 0int }) + (if 5 * count > 3
        * total { 1int } else { 0int }) + (if 5 * count > 4 * total { 1int } else { 0int }) + (if count
        > total { 1int } else { 0int })
}

/// The number of lit cells of a player's territory bar.
pub fn territory_bar_level(count: u32, total: u32) -> (n: u32)
    ensures
        n == bar_level(count as int, total as int),
        n <= 7,
{
    let c: u64 = count as u64;
    let t: u64 = total as u64;
    let mut n: u32 = 0;
    if c > 0 {
        n = n + 1;
    }
    if 5 * c > t {
        n = n + 1;
    }
    if 5 * c > 2 * t {
        n = n + 1;
    }
    if 2 * c > t {
        n = n + 1;
    }
    if 5 * c > 3 * t {
        n = n + 1;
    }
    if 5 * c > 4 * t {
        n = n + 1;
    }
    if c > t {
        n = n + 1;
    }
    n
}

/// A player holding more tiles never has a shorter bar, an empty bar means
/// no tiles, and a full bar more tiles than the map has.
pub proof fn lemma_bar_level_monotone(a: int, b: int, total: int)
    requires
        0 <= a <= b,
        0 <= total,
    ensures
        bar_level(a, total) <= bar_level(b, total),
        0 <= bar_level(a, total) <= 7,
        bar_level(a, total) == 0 <==> a == 0,
        bar_level(a, total) == 7 <==> a > total,
{
}

/// The row of the screen on which an enemy's territory bar is drawn.
pub fn enemy_bar_row(player_id: usize) -> (row: u32)
    ensures
        row == (if player_id == 1 {
            22u32
        } else if player_id == 2 {
            24u32
        } else if player_id == 3 {
            26u32
        } else if player_id == 0 {
            28u32
        } else {
            0u32
        }),
{
    match player_id {
        3 => 26,
        2 => 24,
        1 => 22,
        0 => 28,
        _ => 0,
    }
}

/// A placed object: a building or an ability.
#[derive(Clone, Copy, PartialEq, Eq, Structural, Debug, Hash)]
pub enum ObjectKind {
    Building(BuildingTypes),
    Ability(Abilities),
}

/// The letter an object is drawn with on the text screen, if any: P, S and L
/// for the buildings, N and E for nukes and expands; fortifies show none.
pub fn object_glyph(kind: ObjectKind) -> (c: Option<char>)
    ensures
        c == match kind {
            ObjectKind::Building(BuildingTypes::Pulser) => Some('P'),
            ObjectKind::Building(BuildingTypes::Scatter) => Some('S'),
            ObjectKind::Building(BuildingTypes::Line) => Some('L'),
            ObjectKind::Ability(Abilities::Nuke) => Some('N'),
            ObjectKind::Ability(Abilities::Expand) => Some('E'),
            ObjectKind::Ability(Abilities::Fortify) => None::<char>,
        },
{
    match kind {
        ObjectKind::Building(BuildingTypes::Pulser) => Some('P'),
        ObjectKind::Building(BuildingTypes::Scatter) => Some('S'),
        ObjectKind::Building(BuildingTypes::Line) => Some('L'),
        ObjectKind::Ability(Abilities::Nuke) => Some('N'),
        ObjectKind::Ability(Abilities::Expand) => Some('E'),
        ObjectKind::Ability(Abilities::Fortify) => None,
    }
}

/// A set of colours: one per player, in hexadecimal notation, and those of
/// tiles that cannot be and that can be coloured.
pub struct Palette {
    pub player_colors: Vec<String>,
    pub noncolorable_tile: String,
    pub colorable_tile: String,
}

/// The palettes the player can pick from, and the one picked.
pub struct PlayerColors {
    pub palette_index: usize,
    pub palettes: Vec<Palette>,
}

impl PlayerColors {
    /// There is a palette, and the index picks one of them.
    pub open spec fn wf(&self) -> bool {
        self.palettes@.len() > 0 && self.palette_index < self.palettes@.len()
    }

    /// The first of the given palettes picked.
    pub fn new(palettes: Vec<Palette>) -> (c: PlayerColors)
        requires
            palettes@.len() > 0,
        ensures
            c.wf(),
            c.palette_index == 0,
            c.palettes@ == palettes@,
    {
        PlayerColors { palette_index: 0, palettes }
    }

    /// The palette picked.
    pub fn current_palette(&self) -> (p: &Palette)
        requires
            self.wf(),
        ensures
            *p == self.palettes@[self.palette_index as int],
    {
        &self.palettes[self.palette_index]
    }

    /// The colour of player `player_id` in the picked palette.
    pub fn get_color(&self, player_id: usize) -> (c: &String)
        requires
            self.wf(),
            player_id < self.palettes@[self.palette_index as int].player_colors@.len(),
        ensures
            *c == self.palettes@[self.palette_index as int].player_colors@[player_id as int],
    {
        &self.palettes[self.palette_index].player_colors[player_id]
    }

    /// The colour of tiles that cannot be coloured in the picked palette.
    pub fn get_noncolorable(&self) -> (c: &String)
        requires
            self.wf(),
        ensures
            *c == self.palettes@[self.palette_index as int].noncolorable_tile,
    {
        &self.palettes[self.palette_index].noncolorable_tile
    }

    /// The colour of colourable tiles in the picked palette.
    pub fn get_colorable(&self) -> (c: &String)
        requires
            self.wf(),
        ensures
            *c == self.palettes@[self.palette_index as int].colorable_tile,
    {
        &self.palettes[self.palette_index].colorable_tile
    }

    /// Picks the next palette, if there is one.
    pub fn next_palette(&mut self)
        requires
            old(self).wf(),
        ensures
            final(self).wf(),
            final(self).palettes@ == old(self).palettes@,
            final(self).palette_index == if old(self).palette_index + 1 < old(self).palettes@.len() {
                old(self).palette_index + 1
            } else {
                old(self).palette_index as int
            },
    {
        if self.palette_index.saturating_add(1) < self.palettes.len() {
            self.palette_index = self.palette_index.saturating_add(1);
        }
    }

    /// Picks the previous palette, if there is one.
    pub fn prev_palette(&mut self)
        requires
            old(self).wf(),
        ensures
            final(self).wf(),
            final(self).palettes@ == old(self).palettes@,
            final(self).palette_index == if old(self).palette_index > 0 {
                old(self).palette_index - 1
            } else {
                0
            },
    {
        self.palette_index = self.palette_index.saturating_sub(1);
    }

    /// Which palette buttons the menu offers: the previous one while a
    /// palette comes before the picked one, the next one while one comes
    /// after it.
    pub fn palette_buttons(&self) -> (b: StepButtons)
        requires
            self.wf(),
        ensures
            b.decrease_enabled == (self.palette_index > 0),
            b.increase_enabled == (self.palette_index + 1 < self.palettes@.len()),
    {
        StepButtons {
            decrease_enabled: self.palette_index > 0,
            increase_enabled: self.palette_index < self.palettes.len() - 1,
        }
    }
}

/// A palette button is offered exactly when pressing it picks another
/// palette, and the next palette followed by the previous one comes back to
/// the picked one when there was a next one.
pub proof fn lemma_palette_buttons(index: usize, count: usize)
    requires
        index < count,
    ensures
        (index > 0) <==> (if index > 0 { index - 1 } else { 0 }) != index,
        (index + 1 < count) <==> (if index + 1 < count { index + 1 } else { index as int }) != index,
        index + 1 < count ==> (if index + 1 > 0 { index + 1 - 1 } else { 0 }) == index,
{
}

/// The game sounds.
#[derive(Clone, Copy, PartialEq, Eq, Structural, Debug, Hash)]
pub enum GameSoundEvents {
    Fortify,
    Expand,
    GainTile,
    LostTile,
    Nuke,
    PlaceBuilding,
}

/// The sound played when an object appears on the map: the building sound
/// for every building, and each ability's own sound.
pub fn spawned_object_sound(kind: ObjectKind) -> (e: GameSoundEvents)
    ensures
        e == match kind {
            ObjectKind::Building(_) => GameSoundEvents::PlaceBuilding,
            ObjectKind::Ability(Abilities::Fortify) => GameSoundEvents::Fortify,
            ObjectKind::Ability(Abilities::Expand) => GameSoundEvents::Expand,
            ObjectKind::Ability(Abilities::Nuke) => GameSoundEvents::Nuke,
        },
{
    match kind {
        ObjectKind::Building(_) => GameSoundEvents::PlaceBuilding,
        ObjectKind::Ability(Abilities::Fortify) => GameSoundEvents::Fortify,
        ObjectKind::Ability(Abilities::Expand) => GameSoundEvents::Expand,
        ObjectKind::Ability(Abilities::Nuke) => GameSoundEvents::Nuke,
    }
}

} // verus!
