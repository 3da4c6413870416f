//! The state of the game, a sub-state of [`AppState::Game`](crate::state::AppState).
use vstd::prelude::*;

pub mod entering;
pub mod leaving;
pub mod loading;

verus! {

/// The state of the game.
#[derive(Clone, Copy, Debug, PartialEq, Eq, Hash, Structural)]
pub enum GameState {
    /// Entering the game.
    Entering,
    /// The game is running.
    Running,
    /// The game is paused.
    Paused,
    /// Within an in-game menu.
    InGameMenu,
    /// Loading within the game.
    Loading,
    /// Death screen.
    Died,
    /// Leaving the game.
    Leaving,
}

impl Default for GameState {
    /// The state the game starts in.
    fn default() -> (s: GameState)
        ensures
            s == GameState::Entering,
    {
        GameState::Entering
    }
}

} // verus!
