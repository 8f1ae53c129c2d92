//! Phase tags for the round and game state machines, and the data each
//! phase carries.

use vstd::prelude::*;

use crate::bet::Bet;
use crate::game::round::{PlayerRolls, Round};
use crate::player::Player;

verus! {

/// Game phase: a round is in progress.
#[derive(Debug, PartialEq, Eq)]
pub struct InRound<State: RoundState> {
    pub curr_round: Round<State>,
}

/// Game phase: the game has ended and `winner` is the last player holding
/// dice.
#[derive(Debug, PartialEq, Eq)]
pub struct GameOver {
    pub winner: Player,
}

pub trait GameState {

}

impl<State: RoundState> GameState for InRound<State> {

}

impl GameState for GameOver {

}

/// Round phase: freshly rolled, no bet has been made yet. The first
/// player's entry is carried alongside for convenience.
#[derive(Debug, PartialEq, Eq)]
pub struct NewRound {
    pub first_player_rolls: PlayerRolls,
}

/// Round phase: betting is in progress; `prev_bet` is the claim any raise
/// must exceed and `curr_player_rolls` belongs to the player due to act.
#[derive(Debug, PartialEq, Eq)]
pub struct Betting {
    pub curr_player_rolls: PlayerRolls,
    pub prev_bet: Bet,
}

/// Round phase: a challenge was made. `caller` challenged the final bet of
/// `better`; `was_fluff` records whether that bet was false.
#[derive(Debug, PartialEq, Eq)]
pub struct Called {
    pub caller: Player,
    pub better: Player,
    pub was_fluff: bool,
}

impl Called {
    /// The player who gives up a die: the better if the claim was false,
    /// otherwise the challenger.
    pub open spec fn spec_loser(self) -> Player {
        if self.was_fluff {
            self.better
        } else {
            self.caller
        }
    }

    /// The player on the right side of the verdict.
    pub open spec fn spec_winner(self) -> Player {
        if self.was_fluff {
            self.caller
        } else {
            self.better
        }
    }

    pub fn loser(&self) -> (r: &Player)
        ensures
            *r == self.spec_loser(),
    {
        if self.was_fluff {
            &self.better
        } else {
            &self.caller
        }
    }

    pub fn winner(&self) -> (r: &Player)
        ensures
            *r == self.spec_winner(),
    {
        if self.was_fluff {
            &self.caller
        } else {
            &self.better
        }
    }
}

pub trait RoundState {

}

impl RoundState for NewRound {

}

impl RoundState for Betting {

}

impl RoundState for Called {

}

/// A round phase in which a bet may still be placed.
pub trait UnfinishedRound: RoundState {

}

impl UnfinishedRound for NewRound {

}

impl UnfinishedRound for Betting {

}

} // verus!
