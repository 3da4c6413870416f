//! The global state of the application, and the checks that move it on
//! once the tasks that block a state are done.
use vstd::prelude::*;

pub mod entering;
pub mod exiting;
pub mod game;

verus! {

/// The global state of the application.
#[derive(Clone, Copy, Debug, PartialEq, Eq, Hash, Structural)]
pub enum AppState {
    /// The application is starting up.
    Entering,
    /// The application is in the main menu.
    MainMenu,
    /// The application is in the game.
    Game,
    /// The application is exiting.
    Exiting,
}

impl Default for AppState {
    /// The state the application starts in.
    fn default() -> (s: AppState)
        ensures
            s == AppState::Entering,
    {
        AppState::Entering
    }
}

/// How the application exits.
#[derive(Clone, Copy, Debug, PartialEq, Eq, Structural)]
pub enum AppExit {
    /// The application exits without error.
    Success,
    /// The application exits with the given error code, never zero.
    Error(u8),
}

impl Default for AppExit {
    /// The exit of an application that did not say how it exits.
    fn default() -> (e: AppExit)
        ensures
            e == AppExit::Success,
    {
        AppExit::Success
    }
}

} // verus!
