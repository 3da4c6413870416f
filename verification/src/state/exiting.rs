//! Leaving the application once nothing blocks [`AppState::Exiting`].
use vstd::prelude::*;

use crate::state::AppExit;

verus! {

/// Sends the exit signal once no entity carries an exiting task;
/// `task_count` is the number of such entities.
pub fn poll_state(task_count: usize) -> (exit: Option<AppExit>)
    ensures
        exit == if task_count == 0 {
            Some(AppExit::Success)
        } else {
            None::<AppExit>
        },
{
    if task_count == 0 {
        Some(AppExit::Success)
    } else {
        None
    }
}

} // verus!
