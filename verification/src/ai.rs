//! AI players: a `Profile` selects a `Policy`; a policy returns the next command.

use vstd::prelude::*;

use crate::board::Board;
use crate::command::Command;
use crate::noise::Mulberry32;
use crate::apply::spec_apply;
use crate::state::{GameModel, GameState};
use crate::tile::TileId;

verus! {

/// Difficulty knobs, as the level string defines them.
#[derive(Debug, Clone, Copy, PartialEq, Eq, Structural)]
pub struct Profile {
    /// 0 = never attacks, 100 = attacks at every chance.
    pub hostility: u8,
    /// 0 = passes, 1 = random legal, 2 = greedy, 3 = lookahead.
    pub intelligence: u8,
}

/// Picks commands for one faction.
pub trait Policy {
    /// The next command for the current faction; `Command::EndTurn` when done.
    fn choose_command<B: Board>(&mut self, state: &GameState, board: &B) -> Command;
}

/// Tier 0: ends the turn immediately, so a match with AI players runs end to end.
#[derive(Debug, Clone)]
pub struct Passive {
    /// Generator the policy draws from; kept so every tier has the same shape.
    rng: Mulberry32,
    /// Profile the policy was built from.
    pub profile: Profile,
}

impl Passive {
    /// State of the policy's generator.
    pub closed spec fn rng_state(&self) -> i32 {
        self.rng.state()
    }

    /// The profile the policy was built from.
    pub closed spec fn profile_view(&self) -> Profile {
        self.profile
    }
}

impl Policy for Passive {
    fn choose_command<B: Board>(&mut self, state: &GameState, board: &B) -> (c: Command)
        ensures
            c == Command::EndTurn,
            final(self).profile_view() == old(self).profile_view(),
            final(self).rng_state() == old(self).rng_state(),
    {
        Command::EndTurn
    }
}

/// The policy for a profile, its generator seeded with `seed`. Every tier currently plays as
/// [`Passive`].
pub fn policy_for(profile: Profile, seed: u32) -> (p: Passive)
    ensures
        p.profile_view() == profile,
        p.rng_state() == seed as i32,
{
    Passive { rng: Mulberry32::from_i32(seed as i32), profile }
}

/// The command the passive policy plays, ending the turn, is legal in every state of a running
/// match, and refused only once the match has a winner.
pub proof fn lemma_passive_move_legal(m: GameModel, adj: Seq<Seq<TileId>>)
    ensures
        spec_apply(m, adj, Command::EndTurn) is Ok <==> m.winner is None,
{
}

} // verus!
