//! The four playable sides.

use vstd::prelude::*;

verus! {

/// One of the four playable sides. Declaration order is turn order.
#[derive(Debug, Clone, Copy, PartialEq, Eq, Structural, PartialOrd, Ord, Hash)]
pub enum Faction {
    /// Plays first.
    Red,
    /// Plays second.
    Yellow,
    /// Plays third.
    Green,
    /// Plays last.
    Blue,
}

/// Zero-based slot of a faction, also its place in the turn order.
pub open spec fn faction_index(f: Faction) -> nat {
    match f {
        Faction::Red => 0,
        Faction::Yellow => 1,
        Faction::Green => 2,
        Faction::Blue => 3,
    }
}

/// The faction in slot `i`, for `0 <= i < 4`.
pub open spec fn faction_at(i: int) -> Faction {
    if i == 0 {
        Faction::Red
    } else if i == 1 {
        Faction::Yellow
    } else if i == 2 {
        Faction::Green
    } else {
        Faction::Blue
    }
}

/// The level-string letter of a faction.
pub open spec fn faction_letter(f: Faction) -> char {
    match f {
        Faction::Red => 'R',
        Faction::Yellow => 'Y',
        Faction::Green => 'G',
        Faction::Blue => 'B',
    }
}

/// The faction a level-string letter stands for.
pub open spec fn faction_of_letter(c: char) -> Option<Faction> {
    if c == 'R' {
        Some(Faction::Red)
    } else if c == 'Y' {
        Some(Faction::Yellow)
    } else if c == 'G' {
        Some(Faction::Green)
    } else if c == 'B' {
        Some(Faction::Blue)
    } else {
        None
    }
}

/// Slots and letters name each faction exactly once.
pub proof fn lemma_faction_codes(f: Faction)
    ensures
        faction_at(faction_index(f) as int) == f,
        faction_index(f) < 4,
        faction_of_letter(faction_letter(f)) == Some(f),
{
}

/// A letter that names a faction is that faction's letter.
pub proof fn lemma_faction_letter_back(c: char)
    ensures
        faction_of_letter(c) matches Some(f) ==> faction_letter(f) == c,
{
}

impl Faction {
    /// All factions in turn order.
    pub const ALL: [Faction; 4] = [Faction::Red, Faction::Yellow, Faction::Green, Faction::Blue];

    /// Zero-based slot, also the turn order.
    pub fn index(self) -> (i: usize)
        ensures
            i == faction_index(self),
            i < 4,
            faction_at(i as int) == self,
    {
        match self {
            Faction::Red => 0,
            Faction::Yellow => 1,
            Faction::Green => 2,
            Faction::Blue => 3,
        }
    }

    /// Faction by slot; `None` outside `0..4`.
    pub fn from_index(i: usize) -> (f: Option<Faction>)
        ensures
            f == (if i < 4 { Some(faction_at(i as int)) } else { None::<Faction> }),
            f matches Some(g) ==> faction_index(g) == i,
    {
        if i == 0 {
            Some(Faction::Red)
        } else if i == 1 {
            Some(Faction::Yellow)
        } else if i == 2 {
            Some(Faction::Green)
        } else if i == 3 {
            Some(Faction::Blue)
        } else {
            None
        }
    }

    /// Single-letter code used by the level string (`R`, `Y`, `G`, `B`).
    pub fn letter(self) -> (c: char)
        ensures
            c == faction_letter(self),
    {
        match self {
            Faction::Red => 'R',
            Faction::Yellow => 'Y',
            Faction::Green => 'G',
            Faction::Blue => 'B',
        }
    }

    /// Inverse of [`Faction::letter`].
    pub fn from_letter(c: char) -> (f: Option<Faction>)
        ensures
            f == faction_of_letter(c),
    {
        if c == 'R' {
            Some(Faction::Red)
        } else if c == 'Y' {
            Some(Faction::Yellow)
        } else if c == 'G' {
            Some(Faction::Green)
        } else if c == 'B' {
            Some(Faction::Blue)
        } else {
            None
        }
    }

    /// Human-readable name.
    pub fn name(self) -> (s: &'static str)
        ensures
            s@ == (match self {
                Faction::Red => "Red"@,
                Faction::Yellow => "Yellow"@,
                Faction::Green => "Green"@,
                Faction::Blue => "Blue"@,
            }),
    {
        match self {
            Faction::Red => "Red",
            Faction::Yellow => "Yellow",
            Faction::Green => "Green",
            Faction::Blue => "Blue",
        }
    }
}

} // verus!
