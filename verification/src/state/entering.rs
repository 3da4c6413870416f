//! Leaving [`AppState::Entering`] once nothing blocks it.
use vstd::prelude::*;

use crate::state::AppState;

verus! {

/// Moves into [`AppState::MainMenu`] once no entity carries an entering
/// task; `task_count` is the number of such entities.
pub fn poll_state(task_count: usize) -> (next: Option<AppState>)
    ensures
        next == if task_count == 0 {
            Some(AppState::MainMenu)
        } else {
            None::<AppState>
        },
{
    if task_count == 0 {
        Some(AppState::MainMenu)
    } else {
        None
    }
}

} // verus!
