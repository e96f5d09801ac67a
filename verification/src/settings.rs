//! What a game is built with: the difficulty of the AI, the size of the map,
//! the number of enemies, and where each player starts.

use vstd::prelude::*;
use crate::grid::TilePos;

verus! {

/// How hard the computer players play.
#[derive(Clone, Copy, PartialEq, Eq, Structural, Debug, Hash)]
pub enum GameDifficulty {
    Easy,
    Medium,
    Hard,
}

/// The rank of a difficulty: Easy 0, Medium 1, Hard 2.
pub open spec fn difficulty_rank(d: GameDifficulty) -> int {
    match d {
        GameDifficulty::Easy => 0,
        GameDifficulty::Medium => 1,
        GameDifficulty::Hard => 2,
    }
}

/// The difficulty of a rank, ranks below 0 giving Easy and above 2 Hard.
pub open spec fn difficulty_at(rank: int) -> GameDifficulty {
    if rank <= 0 {
        GameDifficulty::Easy
    } else if rank == 1 {
        GameDifficulty::Medium
    } else {
        GameDifficulty::Hard
    }
}

/// The chance of a difficulty as `(numerator, denominator)`: to build when
/// `building`, else to act.
pub open spec fn speed_of(d: GameDifficulty, building: bool) -> (int, int) {
    if building {
        match d {
            GameDifficulty::Easy => (1int, 1000int),
            GameDifficulty::Medium => (1int, 100int),
            GameDifficulty::Hard => (1int, 20int),
        }
    } else {
        match d {
            GameDifficulty::Easy => (1int, 100int),
            GameDifficulty::Medium => (1int, 10int),
            GameDifficulty::Hard => (1int, 2int),
        }
    }
}

impl GameDifficulty {
    /// The next harder difficulty; Hard stays Hard.
    pub fn increase_difficulty(&self) -> (d: GameDifficulty)
        ensures
            d == difficulty_at(difficulty_rank(*self) + 1),
    {
        match self {
            GameDifficulty::Easy => GameDifficulty::Medium,
            GameDifficulty::Medium => GameDifficulty::Hard,
            GameDifficulty::Hard => GameDifficulty::Hard,
        }
    }

    /// The next easier difficulty; Easy stays Easy.
    pub fn decrease_difficulty(&self) -> (d: GameDifficulty)
        ensures
            d == difficulty_at(difficulty_rank(*self) - 1),
    {
        match self {
            GameDifficulty::Easy => GameDifficulty::Easy,
            GameDifficulty::Medium => GameDifficulty::Easy,
            GameDifficulty::Hard => GameDifficulty::Medium,
        }
    }

    /// The chance that a computer player builds in a step, as a fraction
    /// `(numerator, denominator)`: one in a thousand when easy, one in a
    /// hundred at medium, one in twenty when hard.
    pub fn ai_building_speed(&self) -> (r: (u32, u32))
        ensures
            r.0 == speed_of(*self, true).0,
            r.1 == speed_of(*self, true).1,
    {
        match self {
            GameDifficulty::Easy => (1, 1000),
            GameDifficulty::Medium => (1, 100),
            GameDifficulty::Hard => (1, 20),
        }
    }

    /// The chance that a computer player acts in a step, as a fraction
    /// `(numerator, denominator)`: one in a hundred when easy, one in ten at
    /// medium, one in two when hard.
    pub fn ai_action_speed(&self) -> (r: (u32, u32))
        ensures
            r.0 == speed_of(*self, false).0,
            r.1 == speed_of(*self, false).1,
    {
        match self {
            GameDifficulty::Easy => (1, 100),
            GameDifficulty::Medium => (1, 10),
            GameDifficulty::Hard => (1, 2),
        }
    }

    /// The name shown for the difficulty.
    pub fn name(&self) -> (s: &'static str)
        ensures
            s@ == match *self {
                GameDifficulty::Easy => "Easy"@,
                GameDifficulty::Medium => "Medium"@,
                GameDifficulty::Hard => "Hard"@,
            },
    {
        match self {
            GameDifficulty::Easy => "Easy",
            GameDifficulty::Medium => "Medium",
            GameDifficulty::Hard => "Hard",
        }
    }
}

/// Every difficulty is the difficulty of its own rank.
pub proof fn lemma_difficulty_rank_roundtrip(d: GameDifficulty)
    ensures
        0 <= difficulty_rank(d) <= 2,
        difficulty_at(difficulty_rank(d)) == d,
{
}

/// Raising the difficulty never makes it easier, and lowering it never makes
/// it harder: each step moves the rank by one, or not at all at the end of
/// the scale.
pub proof fn lemma_difficulty_steps(d: GameDifficulty)
    ensures
        difficulty_rank(d) <= difficulty_rank(difficulty_at(difficulty_rank(d) + 1))
            <= difficulty_rank(d) + 1,
        difficulty_rank(d) - 1 <= difficulty_rank(difficulty_at(difficulty_rank(d) - 1))
            <= difficulty_rank(d),
        (difficulty_at(difficulty_rank(d) + 1) == d) <==> d == GameDifficulty::Hard,
        (difficulty_at(difficulty_rank(d) - 1) == d) <==> d == GameDifficulty::Easy,
{
}

/// Lowering the difficulty undoes raising it, except at Hard, and raising it
/// undoes lowering it, except at Easy.
pub proof fn lemma_difficulty_inverse(d: GameDifficulty)
    ensures
        d != GameDifficulty::Hard ==> difficulty_at(difficulty_rank(difficulty_at(difficulty_rank(d) + 1)) - 1) == d,
        d != GameDifficulty::Easy ==> difficulty_at(difficulty_rank(difficulty_at(difficulty_rank(d) - 1)) + 1) == d,
{
}

/// A harder difficulty never makes the computer players slower: both
/// chances grow with the rank.
pub proof fn lemma_harder_is_faster(a: GameDifficulty, b: GameDifficulty)
    requires
        difficulty_rank(a) <= difficulty_rank(b),
    ensures
        speed_of(a, true).0 * speed_of(b, true).1 <= speed_of(b, true).0 * speed_of(a, true).1,
        speed_of(a, false).0 * speed_of(b, false).1 <= speed_of(b, false).0 * speed_of(a, false).1,
{
}

/// The smallest side a map can have.
pub const MIN_MAP_SIZE: u32 = 30;

/// The largest side a map can have.
pub const MAX_MAP_SIZE: u32 = 100;

/// The fewest enemies a game has.
pub const MIN_ENEMY_COUNT: usize = 1;

/// The most enemies a game has.
pub const MAX_ENEMY_COUNT: usize = 3;

/// What the next game is built with: the side of its square map and the
/// number of computer players.
#[derive(Clone, Copy, PartialEq, Eq, Structural, Debug, Hash)]
pub struct GameBuildSettings {
    pub map_size: u32,
    pub enemy_count: usize,
}

/// `v` brought into `[lo, hi]`.
pub open spec fn clamp(v: int, lo: int, hi: int) -> int {
    if v < lo {
        lo
    } else if v > hi {
        hi
    } else {
        v
    }
}

/// How far one press moves the map size: ten with the modifier held, else one.
pub open spec fn map_size_step(modifier: bool) -> int {
    if modifier { 10 } else { 1 }
}

impl GameBuildSettings {
    /// The settings lie within the ranges that the menu allows.
    pub open spec fn in_range(self) -> bool {
        &&& MIN_MAP_SIZE <= self.map_size <= MAX_MAP_SIZE
        &&& MIN_ENEMY_COUNT <= self.enemy_count <= MAX_ENEMY_COUNT
    }

    /// One enemy fewer, but never fewer than one.
    pub fn decrease_enemy_count(&mut self)
        ensures
            final(self).enemy_count == clamp(old(self).enemy_count - 1, 1, usize::MAX as int),
            final(self).map_size == old(self).map_size,
    {
        self.enemy_count = self.enemy_count.saturating_sub(1);
        if self.enemy_count < 1 {
            self.enemy_count = 1;
        }
    }

    /// One enemy more, but never more than three.
    pub fn increase_enemy_count(&mut self)
        ensures
            final(self).enemy_count == clamp(old(self).enemy_count + 1, 0, 3),
            final(self).map_size == old(self).map_size,
    {
        self.enemy_count = self.enemy_count.saturating_add(1);
        if self.enemy_count > 3 {
            self.enemy_count = 3;
        }
    }

    /// A larger map, by ten with the modifier held and by one otherwise, but
    /// never larger than 100.
    pub fn increase_map_size(&mut self, modifier: bool)
        ensures
            final(self).map_size == clamp(old(self).map_size + map_size_step(modifier), 0, 100),
            final(self).enemy_count == old(self).enemy_count,
    {
        let mut amount_to_change: u32 = 1;
        if modifier {
            amount_to_change = 10;
        }
        self.map_size = self.map_size.saturating_add(amount_to_change);
        if self.map_size > 100 {
            self.map_size = 100;
        }
    }

    /// A smaller map, by ten with the modifier held and by one otherwise, but
    /// never smaller than 30.
    pub fn decrease_map_size(&mut self, modifier: bool)
        ensures
            final(self).map_size == clamp(old(self).map_size - map_size_step(modifier), 30, u32::MAX as int),
            final(self).enemy_count == old(self).enemy_count,
    {
        let mut amount_to_change: u32 = 1;
        if modifier {
            amount_to_change = 10;
        }
        self.map_size = self.map_size.saturating_sub(amount_to_change);
        if self.map_size < 30 {
            self.map_size = 30;
        }
    }
}

impl Default for GameBuildSettings {
    /// The smallest map against one enemy.
    fn default() -> (s: Self)
        ensures
            s.map_size == 30,
            s.enemy_count == 1,
    {
        GameBuildSettings { map_size: 30, enemy_count: 1 }
    }
}

/// Each of the four size and enemy buttons keeps the settings within the
/// menu's ranges.
pub proof fn lemma_settings_stay_in_range(s: GameBuildSettings, modifier: bool)
    requires
        s.in_range(),
    ensures
        (GameBuildSettings { enemy_count: clamp(s.enemy_count - 1, 1, usize::MAX as int) as usize, ..s }).in_range(),
        (GameBuildSettings { enemy_count: clamp(s.enemy_count + 1, 0, 3) as usize, ..s }).in_range(),
        (GameBuildSettings { map_size: clamp(s.map_size + map_size_step(modifier), 0, 100) as u32, ..s }).in_range(),
        (GameBuildSettings { map_size: clamp(s.map_size - map_size_step(modifier), 30, u32::MAX as int) as u32, ..s }).in_range(),
{
}

/// Within the menu's ranges, one enemy more and then one fewer gives back
/// the count, unless it was already three; one fewer and then one more,
/// unless it was already one. A map one step larger and then one step
/// smaller comes back to its size unless the larger one hit 100, and the
/// other way unless the smaller one hit 30.
pub proof fn lemma_settings_inverse(s: GameBuildSettings, modifier: bool)
    requires
        s.in_range(),
    ensures
        s.enemy_count < 3 ==> clamp(clamp(s.enemy_count + 1, 0, 3) - 1, 1, usize::MAX as int) == s.enemy_count,
        s.enemy_count > 1 ==> clamp(clamp(s.enemy_count - 1, 1, usize::MAX as int) + 1, 0, 3) == s.enemy_count,
        s.map_size + map_size_step(modifier) <= 100 ==> clamp(
            clamp(s.map_size + map_size_step(modifier), 0, 100) - map_size_step(modifier),
            30,
            u32::MAX as int,
        ) == s.map_size,
        s.map_size - map_size_step(modifier) >= 30 ==> clamp(
            clamp(s.map_size - map_size_step(modifier), 30, u32::MAX as int) + map_size_step(modifier),
            0,
            100,
        ) == s.map_size,
{
}

/// Whether each of a pair of step buttons can be pressed.
#[derive(Clone, Copy, PartialEq, Eq, Structural, Debug, Hash)]
pub struct StepButtons {
    pub decrease_enabled: bool,
    pub increase_enabled: bool,
}

impl GameBuildSettings {
    /// Which map size buttons the menu offers: smaller while above 30,
    /// larger while below 100.
    pub fn map_size_buttons(&self) -> (b: StepButtons)
        ensures
            b.decrease_enabled == (self.map_size > MIN_MAP_SIZE),
            b.increase_enabled == (self.map_size < MAX_MAP_SIZE),
    {
        StepButtons {
            decrease_enabled: self.map_size > MIN_MAP_SIZE,
            increase_enabled: self.map_size < MAX_MAP_SIZE,
        }
    }

    /// Which enemy count buttons the menu offers: fewer while above one,
    /// more while below three.
    pub fn enemy_count_buttons(&self) -> (b: StepButtons)
        ensures
            b.decrease_enabled == (self.enemy_count > MIN_ENEMY_COUNT),
            b.increase_enabled == (self.enemy_count < MAX_ENEMY_COUNT),
    {
        StepButtons {
            decrease_enabled: self.enemy_count > MIN_ENEMY_COUNT,
            increase_enabled: self.enemy_count < MAX_ENEMY_COUNT,
        }
    }
}

/// Within the menu's ranges a size or enemy button is offered exactly when
/// pressing it would change the setting.
pub proof fn lemma_buttons_offered_when_they_act(s: GameBuildSettings, modifier: bool)
    requires
        s.in_range(),
    ensures
        (s.map_size > MIN_MAP_SIZE) <==> clamp(s.map_size - map_size_step(modifier), 30, u32::MAX as int) != s.map_size,
        (s.map_size < MAX_MAP_SIZE) <==> clamp(s.map_size + map_size_step(modifier), 0, 100) != s.map_size,
        (s.enemy_count > MIN_ENEMY_COUNT) <==> clamp(s.enemy_count - 1, 1, usize::MAX as int) != s.enemy_count,
        (s.enemy_count < MAX_ENEMY_COUNT) <==> clamp(s.enemy_count + 1, 0, 3) != s.enemy_count,
{
}

/// Where player `player_id` starts on a square map of side `map_size`: the
/// players take the corners of a square inset by a quarter of the side,
/// the first at the low corner, the second at the high one, the third at
/// high x and low y, and every later one at low x and high y.
pub open spec fn spawn_position(map_size: u32, player_id: usize) -> TilePos {
    let inset = map_size / 4;
    let far = (map_size - inset) as u32;
    if player_id == 0 {
        TilePos { x: inset, y: inset }
    } else if player_id == 1 {
        TilePos { x: far, y: far }
    } else if player_id == 2 {
        TilePos { x: far, y: inset }
    } else {
        TilePos { x: inset, y: far }
    }
}

/// The starting positions of the human player and each enemy, in player
/// order: one more than the enemy count.
pub fn player_spawn_positions(settings: &GameBuildSettings) -> (out: Vec<TilePos>)
    requires
        settings.enemy_count < usize::MAX,
    ensures
        out@.len() == settings.enemy_count + 1,
        forall|i: int| 0 <= i < out@.len() ==> #[trigger] out@[i] == spawn_position(settings.map_size, i as usize),
{
    let inset: u32 = settings.map_size / 4;
    let far: u32 = settings.map_size - inset;
    let mut out: Vec<TilePos> = Vec::new();
    let mut player_id: usize = 0;
    while player_id <= settings.enemy_count
        invariant
            player_id <= settings.enemy_count + 1,
            settings.enemy_count < usize::MAX,
            inset == settings.map_size / 4,
            far == settings.map_size - inset,
            out@.len() == player_id,
            forall|i: int| 0 <= i < out@.len() ==> #[trigger] out@[i] == spawn_position(settings.map_size, i as usize),
        decreases settings.enemy_count + 1 - player_id,
    {
        let pos = if player_id == 0 {
            TilePos { x: inset, y: inset }
        } else if player_id == 1 {
            TilePos { x: far, y: far }
        } else if player_id == 2 {
            TilePos { x: far, y: inset }
        } else {
            TilePos { x: inset, y: far }
        };
        out.push(pos);
        player_id = player_id + 1;
    }
    out
}

/// On a map of side 4 or more every starting position lies on the map, and
/// the first four players start on four different tiles.
pub proof fn lemma_spawn_positions_on_map(map_size: u32, a: usize, b: usize)
    requires
        map_size >= 4,
    ensures
        spawn_position(map_size, a).x < map_size,
        spawn_position(map_size, a).y < map_size,
        a < 4 && b < 4 && a != b ==> spawn_position(map_size, a) != spawn_position(map_size, b),
{
}

} // verus!
