use sentinel::state::game::leaving::GameLeavingTarget;
use sentinel::state::game::GameState;
use sentinel::state::{AppExit, AppState};

#[test]
fn entering_moves_to_the_main_menu_once_no_task_blocks_it() {
    assert_eq!(sentinel::state::entering::poll_state(0), Some(AppState::MainMenu));
    assert_eq!(sentinel::state::entering::poll_state(2), None);
    assert_eq!(AppState::default(), AppState::Entering);
}

#[test]
fn exiting_exits_once_no_task_blocks_it() {
    assert_eq!(sentinel::state::exiting::poll_state(0), Some(AppExit::Success));
    assert_eq!(sentinel::state::exiting::poll_state(1), None);
    assert_eq!(AppExit::default(), AppExit::Success);
}

#[test]
fn game_entering_and_loading_move_to_running() {
    assert_eq!(GameState::default(), GameState::Entering);
    assert_eq!(sentinel::state::game::entering::poll_state(0), Some(GameState::Running));
    assert_eq!(sentinel::state::game::entering::poll_state(3), None);
    assert_eq!(sentinel::state::game::loading::poll_state(0), Some(GameState::Running));
    assert_eq!(sentinel::state::game::loading::poll_state(1), None);
}

#[test]
fn leaving_exits_the_application_by_default() {
    let mut target = GameLeavingTarget::default();
    let next = sentinel::state::game::leaving::poll_state(0, &mut target, &vec![]);
    assert_eq!(target, GameLeavingTarget::Exit);
    assert_eq!(next, Some(AppState::Exiting));
}

#[test]
fn leaving_to_the_main_menu_ignores_later_messages() {
    let mut target = GameLeavingTarget::default();
    let next = sentinel::state::game::leaving::poll_state(
        1,
        &mut target,
        &vec![GameLeavingTarget::Exit, GameLeavingTarget::MainMenu, GameLeavingTarget::Exit],
    );
    assert_eq!(next, None);
    assert_eq!(target, GameLeavingTarget::MainMenu);
    let next = sentinel::state::game::leaving::poll_state(
        0,
        &mut target,
        &vec![GameLeavingTarget::Exit],
    );
    assert_eq!(target, GameLeavingTarget::MainMenu);
    assert_eq!(next, Some(AppState::MainMenu));
}
