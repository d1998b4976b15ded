//! What the bot does with each position the server sends.
use vstd::prelude::*;
use crate::board::State;

verus! {

/// The bot's answer to a position received from the server.
#[derive(Clone, Copy, PartialEq, Eq, Structural)]
pub enum TurnAction {
    /// The game is over and white won.
    WhiteWon,
    /// The game is over and black won.
    BlackWon,
    /// The game is over, drawn.
    Drawn,
    /// The other side moves: remember the position and wait.
    Wait,
    /// Our side moves: search and send a move.
    Play,
}

/// A won game has the loser to move; otherwise the bot plays when the side
/// to move is its own.
pub fn turn_action(s: &State, is_white: bool) -> (a: TurnAction)
    ensures
        a == (if s.win && !s.white_to_move {
            TurnAction::WhiteWon
        } else if s.win {
            TurnAction::BlackWon
        } else if s.draw {
            TurnAction::Drawn
        } else if s.white_to_move != is_white {
            TurnAction::Wait
        } else {
            TurnAction::Play
        }),
{
    if s.win && !s.white_to_move {
        TurnAction::WhiteWon
    } else if s.win {
        TurnAction::BlackWon
    } else if s.draw {
        TurnAction::Drawn
    } else if s.white_to_move != is_white {
        TurnAction::Wait
    } else {
        TurnAction::Play
    }
}

} // verus!
