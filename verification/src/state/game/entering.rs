//! Leaving [`GameState::Entering`] once nothing blocks it.
use vstd::prelude::*;

use crate::state::game::GameState;

verus! {

/// Moves into [`GameState::Running`] once no entity carries a game entering
/// task; `task_count` is the number of such entities.
pub fn poll_state(task_count: usize) -> (next: Option<GameState>)
    ensures
        next == if task_count == 0 {
            Some(GameState::Running)
        } else {
            None::<GameState>
        },
{
    if task_count == 0 {
        Some(GameState::Running)
    } else {
        None
    }
}

} // verus!
