use sentinel::dirs::{project, save_directory, saves_directory_in};
use sentinel::labels::{monitor_label, observer_label, pointer_label};
use sentinel::player::{Player, PlayerManager};
use sentinel::plugins::{BevyPlugins, CorePlugins, DebugPlugins, DraftPlugins, EnginePlugin, GamePlugin};
use sentinel::state::AppExit;
use sentinel::testing::{cycles, ensure_minimal, time, MinimalPlugin, SteppableApp};
use sentinel::text::decimal_string;

#[test]
fn decimal_strings_match_format() {
    for n in [0u64, 7, 10, 99, 100, 12345, u64::MAX] {
        assert_eq!(decimal_string(n), format!("{}", n));
    }
}

#[test]
fn players_are_numbered_from_one() {
    let mut m = PlayerManager::default();
    let (name, player) = m.spawn_player(40);
    assert_eq!(name, "Player 1");
    assert_eq!(player, Player { index: 0 });
    let (name, player) = m.spawn_player(41);
    assert_eq!(name, "Player 2");
    assert_eq!(player, Player { index: 1 });
    assert_eq!(m.players().clone(), vec![40, 41]);
}

#[test]
fn monitors_are_named_by_name_or_count() {
    let mut counter = 0usize;
    assert_eq!(monitor_label(Some(&String::from("DP-1")), &mut counter), "Monitor DP-1");
    assert_eq!(counter, 1);
    assert_eq!(monitor_label(None, &mut counter), "Monitor 2");
    assert_eq!(counter, 2);
    assert_eq!(observer_label(), "Observer");
    assert_eq!(pointer_label(), "Pointer");
}

#[test]
fn cycles_exits_after_the_count() {
    let mut counter = 0usize;
    let mut exits = Vec::new();
    for _ in 0..4 {
        exits.push(cycles(2, &mut counter));
    }
    assert_eq!(exits, vec![None, None, Some(AppExit::Success), Some(AppExit::Success)]);
}

#[test]
fn time_exits_once_the_duration_has_passed() {
    assert_eq!(time(5_000_000_000, 5_000_000_000), None);
    assert_eq!(time(5_000_000_000, 5_000_000_001), Some(AppExit::Success));
}

#[test]
fn a_stepped_app_stops_stepping_once_it_exits() {
    let mut app = SteppableApp::default();
    assert!(app.step());
    assert!(app.step_res(None));
    assert!(app.step());
    assert!(!app.step_res(Some(AppExit::Error(3))));
    assert!(!app.step());
    assert!(!app.step_res(None));
    assert!(!app.step_res(Some(AppExit::Success)));
    assert_eq!(app.finish(), AppExit::Error(3));
    assert_eq!(SteppableApp::default().finish(), AppExit::Success);
}

#[test]
fn minimal_plugins_are_added_when_missing() {
    assert_eq!(
        ensure_minimal(false, true, false, false),
        vec![MinimalPlugin::TaskPool, MinimalPlugin::Time, MinimalPlugin::ScheduleRunner]
    );
    assert!(ensure_minimal(true, true, true, true).is_empty());
}

#[test]
fn plugin_groups_list_their_plugins() {
    assert_eq!(
        CorePlugins.build(),
        vec![
            GamePlugin::State,
            GamePlugin::Input,
            GamePlugin::PlayerManager,
            GamePlugin::WorldManager,
            GamePlugin::Task
        ]
    );
    assert!(DraftPlugins.build().is_empty());
    assert_eq!(
        DebugPlugins.build(),
        vec![GamePlugin::Inspector, GamePlugin::Sandbox, GamePlugin::StateLog]
    );
    let all = BevyPlugins.build(true, true);
    assert_eq!(all.len(), 35);
    assert_eq!(all[0], EnginePlugin::Log);
    assert_eq!(all[8], EnginePlugin::TerminalCtrlCHandler);
    assert_eq!(all[17], EnginePlugin::PipelinedRendering);
    assert_eq!(all[34], EnginePlugin::DefaultPicking);
    let bare = BevyPlugins.build(false, false);
    assert_eq!(bare.len(), 33);
    assert!(!bare.contains(&EnginePlugin::TerminalCtrlCHandler));
    assert_eq!(bare[8], EnginePlugin::Asset);
}

#[test]
fn save_directory_is_named_saves() {
    if let Some(dir) = save_directory() {
        assert!(dir.ends_with("saves"));
        let expected = directories::ProjectDirs::from("com", "wtoll", "Sentinel")
            .unwrap()
            .data_local_dir()
            .join("saves");
        assert_eq!(std::path::PathBuf::from(dir), expected);
    }
}

#[test]
fn project_names_are_the_games() {
    assert_eq!(project(), ("com", "wtoll", "Sentinel"));
}

#[test]
fn saves_directory_in_joins_saves() {
    assert_eq!(saves_directory_in(None), None);
    let joined = saves_directory_in(Some(String::from("/home/a/.local/share/sentinel"))).unwrap();
    assert_eq!(
        std::path::PathBuf::from(joined),
        std::path::Path::new("/home/a/.local/share/sentinel").join("saves")
    );
    assert_eq!(saves_directory_in(Some(String::from("data"))), Some(String::from("data/saves")));
    assert_eq!(saves_directory_in(Some(String::from("data/"))), Some(String::from("data/saves")));
}

#[test]
fn stepped() {
    let mut app = SteppableApp::default();
    assert!(app.step());
    assert!(app.step_res(None));
    assert_eq!(app.finish(), AppExit::Success);
}

#[test]
fn test_cycles() {
    let mut counter: usize = 0;
    let mut updates: usize = 0;
    let exit = loop {
        updates += 1;
        if let Some(exit) = cycles(100, &mut counter) {
            break exit;
        }
    };
    assert_eq!(exit, AppExit::Success);
    assert_eq!(updates, 101);
    assert_eq!(counter, 101);
}

#[test]
fn test_time() {
    let duration = std::time::Duration::from_secs(5).as_nanos();
    let mut elapsed: u128 = 0;
    let step = std::time::Duration::from_millis(16).as_nanos();
    let exit = loop {
        if let Some(exit) = time(duration, elapsed) {
            break exit;
        }
        elapsed += step;
    };
    assert_eq!(exit, AppExit::Success);
    assert!(elapsed > duration);
    assert!(elapsed - step <= duration);
}

#[test]
fn saves_directory_in_always_ends_with_saves() {
    for dir in ["", "/", "data", "data/", "\\\\?\\C:\\games\\sentinel"] {
        let joined = saves_directory_in(Some(String::from(dir))).unwrap();
        assert!(joined.ends_with("saves"), "{joined}");
    }
}

#[test]
fn saves_directory_in_adds_a_separator_where_the_base_lacks_one() {
    let joined = saves_directory_in(Some(String::from("/home/u/.local/share/Sentinel"))).unwrap();
    assert_eq!(joined, "/home/u/.local/share/Sentinel/saves");
    assert_eq!(saves_directory_in(Some(String::new())), Some(String::from("saves")));
}
