//! Commands a player issues, events a command produces, and the reasons a command is refused.

use vstd::prelude::*;

use crate::faction::Faction;
use crate::tile::{Cover, TileId, UnitKind};

verus! {

/// What a player can do on their turn. Every variant is replayable: the command log plus the
/// level string reproduce a match exactly.
#[derive(Debug, Clone, Copy, PartialEq, Eq, Structural)]
pub enum Command {
    /// Move the unit on `from` to `to`.
    MoveUnit {
        /// Tile the unit stands on.
        from: TileId,
        /// Destination tile.
        to: TileId,
    },
    /// Create a pawn on an owned, free land tile (R-UNIT-01).
    RecruitPawn {
        /// Where the pawn appears.
        at: TileId,
    },
    /// Upgrade the unit on `at` one step: pawn → warrior → knight (R-UNIT-08, R-UNIT-09).
    Upgrade {
        /// Tile of the unit.
        at: TileId,
    },
    /// Build a town on an owned empty tile (R-BLD-01).
    BuildTown {
        /// Target tile.
        at: TileId,
    },
    /// Build a field on an owned empty tile (R-BLD-02).
    BuildField {
        /// Target tile.
        at: TileId,
    },
    /// Finish the turn (R-TURN-02): income, then the next faction.
    EndTurn,
}

impl Command {
    /// `true` for [`Command::EndTurn`].
    pub fn is_end_turn(&self) -> (b: bool)
        ensures
            b == (*self == Command::EndTurn),
    {
        match self {
            Command::EndTurn => true,
            _ => false,
        }
    }
}

/// What changed. Emitted in the order the changes happened.
#[derive(Debug, Clone, Copy, PartialEq, Eq, Structural)]
pub enum Event {
    /// A faction's turn began.
    TurnStarted {
        /// Faction to move.
        faction: Faction,
        /// Full rounds completed so far.
        turn: u32,
    },
    /// A territory's treasury changed by income or upkeep.
    TreasuryChanged {
        /// Capital of the territory.
        capital: TileId,
        /// Gold delta.
        gold: i64,
        /// Wheat delta.
        wheat: i64,
    },
    /// A tile changed owner.
    OwnerChanged {
        /// Tile.
        tile: TileId,
        /// Previous owner.
        from: Option<Faction>,
        /// New owner.
        to: Option<Faction>,
    },
    /// A tile's cover changed (built, destroyed, grown, cleared, capital moved).
    CoverChanged {
        /// Tile.
        tile: TileId,
        /// Previous cover.
        from: Cover,
        /// New cover.
        to: Cover,
    },
    /// A unit was created.
    UnitCreated {
        /// Where.
        tile: TileId,
        /// Class.
        kind: UnitKind,
    },
    /// A unit changed class.
    UnitUpgraded {
        /// Where.
        tile: TileId,
        /// New class.
        kind: UnitKind,
    },
    /// A unit moved.
    UnitMoved {
        /// Origin.
        from: TileId,
        /// Destination.
        to: TileId,
    },
    /// A unit left the board.
    UnitDied {
        /// Where it stood.
        tile: TileId,
        /// Its class.
        kind: UnitKind,
        /// Why.
        cause: DeathCause,
    },
    /// A capital was founded or moved.
    CapitalMoved {
        /// Previous capital tile, if any.
        from: Option<TileId>,
        /// New capital tile.
        to: TileId,
    },
    /// A faction won.
    Victory {
        /// Winner.
        faction: Faction,
    },
}

/// Why a unit died.
#[derive(Debug, Clone, Copy, PartialEq, Eq, Structural)]
pub enum DeathCause {
    /// Taken by an enemy unit.
    Captured,
    /// The territory could not feed it.
    Starved,
}

/// A rule that is still on the backlog.
#[derive(Debug, Clone, Copy, PartialEq, Eq, Structural)]
pub enum PendingRule {
    /// R-UNIT-04: unit movement.
    UnitMovement,
    /// R-TURN-01: only the faction whose turn it is may act.
    TurnOrder,
}

impl PendingRule {
    /// The rule id, such as `R-TURN-01`.
    pub fn id(self) -> (s: &'static str)
        ensures
            s@ == (match self {
                PendingRule::UnitMovement => "R-UNIT-04"@,
                PendingRule::TurnOrder => "R-TURN-01"@,
            }),
    {
        match self {
            PendingRule::UnitMovement => "R-UNIT-04",
            PendingRule::TurnOrder => "R-TURN-01",
        }
    }
}

/// Why a command was refused. The state is unchanged when one is returned.
#[derive(Debug, Clone, Copy, PartialEq, Eq, Structural)]
pub enum RuleError {
    /// The match is over.
    GameOver,
    /// The tile id is beyond the board.
    NoSuchTile(TileId),
    /// Water.
    NotLand(TileId),
    /// The tile is not in the current faction's territory.
    NotOwned(TileId),
    /// The territory has no capital to pay from.
    NoCapital(TileId),
    /// Not enough gold.
    CannotAfford {
        /// Cost of the action.
        needed: i64,
        /// Gold in the territory.
        available: i64,
    },
    /// The tile must be empty (bare land) for this action.
    NotEmpty(TileId),
    /// A unit already stands there.
    Occupied(TileId),
    /// No unit of the current faction stands there.
    NoUnit(TileId),
    /// The unit has already moved or upgraded this turn.
    AlreadyActed(TileId),
    /// Knights cannot be upgraded further.
    MaxRank(TileId),
    /// The destination cannot be reached.
    OutOfRange {
        /// Origin.
        from: TileId,
        /// Destination.
        to: TileId,
    },
    /// The unit class may not enter that tile.
    Forbidden {
        /// Origin.
        from: TileId,
        /// Destination.
        to: TileId,
    },
    /// The rule that would handle this command is still on the backlog.
    NotYetImplemented(PendingRule),
}

} // verus!
