//! Leaving the game, to the main menu or out of the application.
use vstd::prelude::*;

use crate::state::AppState;

verus! {

/// The [`AppState`] the game is leaving to.
///
/// The default is for the game to make a full exit from the application.
/// Any system can send a signal, however, to exit to the main menu instead.
/// If the main menu becomes the target, all further messages are ignored.
#[derive(Clone, Copy, Debug, PartialEq, Eq, Structural)]
pub enum GameLeavingTarget {
    /// The game is leaving to the main menu.
    MainMenu,
    /// The game is leaving to exit the application.
    Exit,
}

impl Default for GameLeavingTarget {
    /// The target before any message: a full exit.
    fn default() -> (t: GameLeavingTarget)
        ensures
            t == GameLeavingTarget::Exit,
    {
        GameLeavingTarget::Exit
    }
}

/// The target after the messages `messages`: the main menu once it was the
/// target or once any message asks for it; a full exit otherwise.
pub open spec fn retargeted(target: GameLeavingTarget, messages: Seq<GameLeavingTarget>) -> GameLeavingTarget {
    if target == GameLeavingTarget::MainMenu || messages.contains(GameLeavingTarget::MainMenu) {
        GameLeavingTarget::MainMenu
    } else {
        GameLeavingTarget::Exit
    }
}

/// The state the application moves to once the game has left.
pub open spec fn destination(target: GameLeavingTarget) -> AppState {
    match target {
        GameLeavingTarget::MainMenu => AppState::MainMenu,
        GameLeavingTarget::Exit => AppState::Exiting,
    }
}

/// Reads the messages into the target, then moves the application on once
/// no entity carries a leaving task; `task_count` is the number of such
/// entities.
pub fn poll_state(task_count: usize, target: &mut GameLeavingTarget, messages: &Vec<GameLeavingTarget>) -> (next: Option<AppState>)
    ensures
        *final(target) == retargeted(*old(target), messages@),
        next == if task_count == 0 {
            Some(destination(*final(target)))
        } else {
            None::<AppState>
        },
{
    if *target != GameLeavingTarget::MainMenu {
        for i in 0..messages.len()
            invariant
                *old(target) != GameLeavingTarget::MainMenu,
                *target == retargeted(*old(target), messages@.take(i as int)),
        {
            proof {
                assert(messages@.take(i + 1) =~= messages@.take(i as int).push(messages@[i as int]));
                let m = GameLeavingTarget::MainMenu;
                let a = messages@.take(i as int);
                let b = messages@.take(i + 1);
                if b.contains(m) {
                    let j = choose|j: int| 0 <= j < b.len() && b[j] == m;
                    if j < a.len() {
                        assert(a[j] == m);
                    }
                }
                if a.contains(m) {
                    let j = choose|j: int| 0 <= j < a.len() && a[j] == m;
                    assert(b[j] == m);
                }
                if messages@[i as int] == m {
                    assert(b[i as int] == m);
                }
            }
            if messages[i] == GameLeavingTarget::MainMenu {
                *target = messages[i];
            }
        }
        assert(messages@.take(messages.len() as int) =~= messages@);
    }
    if task_count == 0 {
        Some(
            match *target {
                GameLeavingTarget::MainMenu => AppState::MainMenu,
                GameLeavingTarget::Exit => AppState::Exiting,
            },
        )
    } else {
        None
    }
}

/// Once the main menu is the target, no message changes it.
pub proof fn lemma_main_menu_sticks(messages: Seq<GameLeavingTarget>)
    ensures
        retargeted(GameLeavingTarget::MainMenu, messages) == GameLeavingTarget::MainMenu,
{
}

/// Reading two batches of messages one after the other leaves the target
/// reading them together would.
pub proof fn lemma_retargeted_batches(
    target: GameLeavingTarget,
    first: Seq<GameLeavingTarget>,
    second: Seq<GameLeavingTarget>,
)
    ensures
        retargeted(retargeted(target, first), second) == retargeted(target, first + second),
{
    let m = GameLeavingTarget::MainMenu;
    assert((first + second).contains(m) <==> (first.contains(m) || second.contains(m))) by {
        if (first + second).contains(m) {
            let j = choose|j: int| 0 <= j < (first + second).len() && (first + second)[j] == m;
            if j < first.len() {
                assert(first[j] == m);
            } else {
                assert(second[j - first.len()] == m);
            }
        }
        if first.contains(m) {
            let j = choose|j: int| 0 <= j < first.len() && first[j] == m;
            assert((first + second)[j] == m);
        }
        if second.contains(m) {
            let j = choose|j: int| 0 <= j < second.len() && second[j] == m;
            assert((first + second)[first.len() + j] == m);
        }
    }
}

} // verus!
