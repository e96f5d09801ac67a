//! How strongly a player holds a tile, and the steps that raise or lower it.

use vstd::prelude::*;

verus! {

/// The six strengths a tile colour can have, from unclaimed to fully held.
#[derive(Clone, Copy, PartialEq, Eq, Structural, Debug, Hash)]
pub enum TileColorStrength {
    Neutral,
    One,
    Two,
    Three,
    Four,
    Five,
}

/// The strength as a number from 0 (neutral) to 5.
pub open spec fn strength_level(s: TileColorStrength) -> nat {
    match s {
        TileColorStrength::Neutral => 0,
        TileColorStrength::One => 1,
        TileColorStrength::Two => 2,
        TileColorStrength::Three => 3,
        TileColorStrength::Four => 4,
        TileColorStrength::Five => 5,
    }
}

/// The strength whose number is `n`; numbers above 5 give the full strength.
pub open spec fn strength_at_level(n: nat) -> TileColorStrength {
    if n == 0 {
        TileColorStrength::Neutral
    } else if n == 1 {
        TileColorStrength::One
    } else if n == 2 {
        TileColorStrength::Two
    } else if n == 3 {
        TileColorStrength::Three
    } else if n == 4 {
        TileColorStrength::Four
    } else {
        TileColorStrength::Five
    }
}

/// The colour of a claimed tile.
#[derive(Clone, Copy, PartialEq, Eq, Structural, Debug, Hash)]
pub struct TileColor {
    pub tile_color_strength: TileColorStrength,
}

/// One step weaker, stopping at neutral.
pub open spec fn damaged(c: TileColor) -> TileColor {
    let n = strength_level(c.tile_color_strength);
    TileColor { tile_color_strength: strength_at_level(if n == 0 { 0 } else { (n - 1) as nat }) }
}

/// One step stronger, stopping at the full strength.
pub open spec fn strengthened(c: TileColor) -> TileColor {
    TileColor { tile_color_strength: strength_at_level(strength_level(c.tile_color_strength) + 1) }
}

impl TileColor {
    pub open spec fn level(self) -> nat {
        strength_level(self.tile_color_strength)
    }

    /// The strength as a number from 0 to 5.
    pub fn get_number_representation(&self) -> (n: u32)
        ensures
            n == self.level(),
    {
        match self.tile_color_strength {
            TileColorStrength::Neutral => 0,
            TileColorStrength::One => 1,
            TileColorStrength::Two => 2,
            TileColorStrength::Three => 3,
            TileColorStrength::Four => 4,
            TileColorStrength::Five => 5,
        }
    }

    /// Whether the colour is at full strength.
    pub fn max_strength(&self) -> (full: bool)
        ensures
            full == (self.tile_color_strength == TileColorStrength::Five),
    {
        match self.tile_color_strength {
            TileColorStrength::Five => true,
            _ => false,
        }
    }

    /// Lowers the strength by one step; a neutral colour stays neutral.
    pub fn damage(&mut self)
        ensures
            *final(self) == damaged(*old(self)),
    {
        match self.tile_color_strength {
            TileColorStrength::Neutral => {},
            TileColorStrength::One => {
                self.tile_color_strength = TileColorStrength::Neutral;
            },
            TileColorStrength::Two => {
                self.tile_color_strength = TileColorStrength::One;
            },
            TileColorStrength::Three => {
                self.tile_color_strength = TileColorStrength::Two;
            },
            TileColorStrength::Four => {
                self.tile_color_strength = TileColorStrength::Three;
            },
            TileColorStrength::Five => {
                self.tile_color_strength = TileColorStrength::Four;
            },
        }
    }

    /// Raises the strength by one step; a full colour stays full.
    pub fn strengthen(&mut self)
        ensures
            *final(self) == strengthened(*old(self)),
    {
        match self.tile_color_strength {
            TileColorStrength::Neutral => {
                self.tile_color_strength = TileColorStrength::One;
            },
            TileColorStrength::One => {
                self.tile_color_strength = TileColorStrength::Two;
            },
            TileColorStrength::Two => {
                self.tile_color_strength = TileColorStrength::Three;
            },
            TileColorStrength::Three => {
                self.tile_color_strength = TileColorStrength::Four;
            },
            TileColorStrength::Four => {
                self.tile_color_strength = TileColorStrength::Five;
            },
            TileColorStrength::Five => {},
        }
    }
}

impl Default for TileColor {
    /// A fresh tile colour is neutral.
    fn default() -> (c: TileColor)
        ensures
            c.tile_color_strength == TileColorStrength::Neutral,
    {
        TileColor { tile_color_strength: TileColorStrength::Neutral }
    }
}

/// The number of a strength is at most 5, and only the full strength has 5.
pub proof fn lemma_level_range(c: TileColor)
    ensures
        c.level() <= 5,
        (c.level() == 5) == (c.tile_color_strength == TileColorStrength::Five),
        (c.level() == 0) == (c.tile_color_strength == TileColorStrength::Neutral),
        strength_at_level(c.level()) == c.tile_color_strength,
{
}

/// Damage lowers the number by one, never below zero; strengthening raises it
/// by one, never above five.
pub proof fn lemma_steps_change_level_by_one(c: TileColor)
    ensures
        damaged(c).level() == if c.level() == 0 { 0 } else { (c.level() - 1) as nat },
        strengthened(c).level() == if c.level() == 5 { 5 } else { c.level() + 1 },
{
}

/// Strengthening undoes damage on a claimed colour, and damage undoes
/// strengthening below the full strength.
pub proof fn lemma_damage_strengthen_inverse(c: TileColor)
    ensures
        c.tile_color_strength != TileColorStrength::Neutral ==> strengthened(damaged(c)) == c,
        c.tile_color_strength != TileColorStrength::Five ==> damaged(strengthened(c)) == c,
{
}

/// Five damages bring any colour to neutral, and five strengthenings bring
/// any colour to the full strength.
pub proof fn lemma_five_steps_saturate(c: TileColor)
    ensures
        damaged(damaged(damaged(damaged(damaged(c))))).tile_color_strength
            == TileColorStrength::Neutral,
        strengthened(strengthened(strengthened(strengthened(strengthened(c))))).tile_color_strength
            == TileColorStrength::Five,
{
}

} // verus!
