use aura_lib::history::{HALF_LIFE_SECS, SCORE_ONE};
use aura_lib::{Config, DesktopApp, FrecencyEntry, History, LauncherState};

fn make_app(id: &str, name: &str) -> DesktopApp {
    DesktopApp {
        id: id.to_string(),
        name: name.to_string(),
        exec_command: format!("{} %u", id),
        icon: None,
        keywords: vec![],
        description: None,
        path: String::new(),
    }
}

fn decay(age_secs: u64) -> u32 {
    (0.5f64.powf(age_secs as f64 / HALF_LIFE_SECS as f64) * SCORE_ONE as f64).round() as u32
}

fn catalog() -> Vec<DesktopApp> {
    vec![
        make_app("firefox", "Firefox"),
        make_app("chromium", "Chromium"),
        make_app("code", "Visual Studio Code"),
        make_app("files", "Files"),
    ]
}

fn shown(state: &LauncherState) -> Vec<&str> {
    state.filtered_apps.iter().map(|a| a.id.as_str()).collect()
}

#[test]
fn new_state_shows_the_default_list() {
    let mut history = History::new();
    history.record_launch_at("code", 1_000);
    let state = LauncherState::new(&Config::default(), catalog(), history, 2_000, &decay);
    assert_eq!(shown(&state), ["code", "chromium", "files", "firefox"]);
    assert_eq!(state.selected_index, 0);
    assert_eq!(state.apps.len(), 4);
    assert_eq!(state.config.launcher.max_results, 10);
    assert_eq!(state.history.entry("code"), Some(FrecencyEntry { frequency: 1, last_accessed: 1_000 }));
}

#[test]
fn new_state_respects_max_results() {
    let mut config = Config::default();
    config.launcher.max_results = 2;
    let state = LauncherState::new(&config, catalog(), History::new(), 0, &decay);
    assert_eq!(shown(&state), ["chromium", "files"]);
}

#[test]
fn filter_shows_matches_and_resets_selection() {
    let mut state = LauncherState::new(&Config::default(), catalog(), History::new(), 0, &decay);
    state.select_next();
    state.select_next();
    assert_eq!(state.selected_index, 2);
    state.filter("fi", 0, &decay);
    assert_eq!(state.selected_index, 0);
    let mut ids = shown(&state);
    ids.sort();
    assert_eq!(ids, ["files", "firefox"]);
    state.filter("", 0, &decay);
    assert_eq!(shown(&state).len(), 4);
}

#[test]
fn selection_stays_within_the_list() {
    let mut state = LauncherState::new(&Config::default(), catalog(), History::new(), 0, &decay);
    state.select_prev();
    assert_eq!(state.selected_index, 0);
    for expected in [1, 2, 3, 3, 3] {
        state.select_next();
        assert_eq!(state.selected_index, expected);
    }
    for expected in [2, 1, 0, 0] {
        state.select_prev();
        assert_eq!(state.selected_index, expected);
    }
    state.filter("no such application", 0, &decay);
    assert!(state.filtered_apps.is_empty());
    state.select_next();
    assert_eq!(state.selected_index, 0);
}

#[test]
fn launch_records_and_returns_the_command() {
    let mut state = LauncherState::new(&Config::default(), catalog(), History::new(), 0, &decay);
    state.filter("fire", 0, &decay);
    assert_eq!(state.launch_selected(), Some("firefox".to_string()));
    assert_eq!(state.launch_selected(), Some("firefox".to_string()));
    assert_eq!(state.history.entry("firefox").unwrap().frequency, 2);
    assert_eq!(state.history.entry("chromium"), None);
    // the list and the selection are as before
    assert_eq!(shown(&state), ["firefox"]);
    assert_eq!(state.selected_index, 0);
}

#[test]
fn launch_without_selection_does_nothing() {
    let mut state = LauncherState::new(&Config::default(), catalog(), History::new(), 0, &decay);
    state.filter("no such application", 0, &decay);
    assert_eq!(state.launch_selected(), None);
    assert!(state.history.entries().is_empty());
}

#[test]
fn launched_application_moves_up() {
    let mut state = LauncherState::new(&Config::default(), catalog(), History::new(), 0, &decay);
    assert_eq!(shown(&state), ["chromium", "files", "firefox", "code"]);
    state.select_next();
    state.select_next();
    assert_eq!(state.launch_selected(), Some("firefox".to_string()));
    let now = state.history.entry("firefox").unwrap().last_accessed;
    state.filter("", now, &decay);
    assert_eq!(shown(&state), ["firefox", "chromium", "files", "code"]);
}

#[test]
fn try_filter_leaves_the_list_for_a_query_too_long() {
    let mut state = LauncherState::new(&Config::default(), catalog(), History::new(), 0, &decay);
    assert!(state.try_filter("fire", 0, &decay));
    assert_eq!(shown(&state), ["firefox"]);
    state.filtered_apps.push(make_app("extra", "Extra"));
    state.select_next();
    let too_long = "f".repeat(aura_lib::matcher::MAX_QUERY_CHARS + 1);
    assert!(!state.try_filter(&too_long, 0, &decay));
    assert_eq!(shown(&state), ["firefox", "extra"]);
    assert_eq!(state.selected_index, 1);
    assert!(state.try_filter(&"f".repeat(aura_lib::matcher::MAX_QUERY_CHARS), 0, &decay));
    assert!(state.filtered_apps.is_empty());
    assert_eq!(state.selected_index, 0);
}
