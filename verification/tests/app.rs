use bcachefs_top::commands::strip_program_name;
use bcachefs_top::commands::top::app::{App, AppState, SortedBy};
use bcachefs_top::commands::top::components::{clamp_scroll, stats_rows};
use bcachefs_top::commands::top::events::{
    handle_key_event, poll_refresh, KeyCode, KeyEvent, CONTROL,
};
use bcachefs_top::commands::top::json::{FsJsonOutput, StatsError};
use bcachefs_top::commands::top::{Cli, TopMode};
use bcachefs_top::counters::Counters;

fn s(x: &str) -> String {
    x.to_string()
}

fn snapshot(time: u128, entries: &[(&str, u64)]) -> FsJsonOutput {
    let mut c = Counters::new();
    for (k, v) in entries {
        c.insert(s(k), *v);
    }
    FsJsonOutput::new(time, s("uuid"), c)
}

fn key(c: char) -> KeyEvent {
    KeyEvent { code: KeyCode::Char(c), modifiers: 0 }
}

const SEC: u128 = 1_000_000_000;

#[test]
fn program_name_is_dropped() {
    assert_eq!(strip_program_name(vec![s("top"), s("/mnt")]), vec![s("/mnt")]);
    assert_eq!(strip_program_name(vec![s("top")]), vec![s("top")]);
    assert_eq!(strip_program_name(vec![]), Vec::<String>::new());
}

#[test]
fn mode_follows_flags() {
    let cli = |json, time| Cli { mountpoint: None, time, json };
    assert_eq!(cli(true, 2).mode(), TopMode::JsonDelta);
    assert_eq!(cli(true, 1).mode(), TopMode::JsonSnapshot);
    assert_eq!(cli(true, 0).mode(), TopMode::JsonSnapshot);
    assert_eq!(cli(false, 5).mode(), TopMode::Interactive);
}

#[test]
fn new_app_is_empty() {
    let app = App::new(42);
    assert_eq!(app.refresh_rate, 0);
    assert_eq!(app.state, AppState::Main);
    assert_eq!(app.sort_algo, SortedBy::AlphabeticalAscending);
    assert_eq!(app.last_refresh, 42);
    assert!(!app.force_refresh);
    assert_eq!(app.scroll_offset, 0);
    assert!(app.alphabetical_sort.is_empty());
    assert!(app.current_stats.counters.to_vec().is_empty());
}

#[test]
fn builder_rate_defaults_to_one_second() {
    let app = App::with_cli_builder(s("/mnt"), 0, 0);
    assert_eq!(app.refresh_rate, 1);
    assert_eq!(app.mountpoint, "/mnt");
    let app = App::with_cli_builder(s("/mnt"), 5, 0);
    assert_eq!(app.refresh_rate, 5);
}

#[test]
fn refresh_due_after_rate() {
    let app = App::with_cli_builder(s("/"), 2, 10 * SEC);
    assert!(!app.should_refresh(11 * SEC));
    assert!(!app.should_refresh(12 * SEC - 1));
    assert!(app.should_refresh(12 * SEC));
    assert!(!app.should_refresh(5 * SEC));
}

#[test]
fn refresh_moves_current_to_previous() {
    let mut app = App::new(0);
    app.current_stats = snapshot(1, &[("a", 1)]);
    assert_eq!(app.refresh_stats(Ok(snapshot(2, &[("a", 5)])), 99), Ok(()));
    assert_eq!(app.previous_stats.counters.get(&s("a")), Some(1));
    assert_eq!(app.current_stats.counters.get(&s("a")), Some(5));
    assert_eq!(app.last_refresh, 99);
}

#[test]
fn failed_refresh_keeps_current() {
    let mut app = App::new(7);
    app.current_stats = snapshot(1, &[("a", 1)]);
    assert_eq!(app.refresh_stats(Err(StatsError::Open), 99), Err(StatsError::Open));
    assert_eq!(app.previous_stats.counters.get(&s("a")), Some(1));
    assert_eq!(app.current_stats.counters.get(&s("a")), Some(1));
    assert_eq!(app.last_refresh, 7);
}

#[test]
fn scrolling_saturates() {
    let mut app = App::new(0);
    app.scroll_up(3);
    assert_eq!(app.scroll_offset, 0);
    app.scroll_down(4);
    assert_eq!(app.scroll_offset, 4);
    app.scroll_up(4);
    assert_eq!(app.scroll_offset, 0);
    app.scroll_offset = usize::MAX - 1;
    app.scroll_down(5);
    assert_eq!(app.scroll_offset, usize::MAX);
}

#[test]
fn max_offset_fills_the_screen() {
    let mut app = App::new(0);
    app.alphabetical_sort = vec![s("a"), s("b"), s("c"), s("d"), s("e")];
    assert_eq!(app.max_scroll_offset(2), 3);
    assert_eq!(app.max_scroll_offset(5), 0);
    assert_eq!(app.max_scroll_offset(9), 0);
}

#[test]
fn begin_monitoring_sorts_names() {
    let mut app = App::new(0);
    app.current_stats = snapshot(1, &[("write", 1), ("read", 2), ("flush", 3)]);
    app.begin_monitoring();
    assert_eq!(app.alphabetical_sort, vec![s("flush"), s("read"), s("write")]);
    assert_eq!(app.starting_stats.counters.get(&s("read")), Some(2));
    assert_eq!(app.previous_stats.counters.get(&s("flush")), Some(3));
}

#[test]
fn quit_keys() {
    for state in [AppState::Main, AppState::SortScreen] {
        let mut app = App::new(0);
        app.state = state;
        assert_eq!(handle_key_event(&mut app, key('q')), Some(()));
        assert_eq!(handle_key_event(&mut app, KeyEvent { code: KeyCode::Char('Q'), modifiers: 1 }), Some(()));
        assert_eq!(handle_key_event(&mut app, KeyEvent { code: KeyCode::Char('c'), modifiers: CONTROL }), Some(()));
        assert_eq!(handle_key_event(&mut app, KeyEvent { code: KeyCode::Char('c'), modifiers: CONTROL | 1 }), None);
        assert_eq!(handle_key_event(&mut app, key('c')), None);
        assert_eq!(app.state, state);
    }
}

#[test]
fn main_screen_keys() {
    let mut app = App::new(0);
    assert_eq!(handle_key_event(&mut app, key('j')), None);
    assert_eq!(handle_key_event(&mut app, KeyEvent { code: KeyCode::Down, modifiers: 0 }), None);
    assert_eq!(app.scroll_offset, 2);
    assert!(!app.force_refresh);
    handle_key_event(&mut app, key('k'));
    handle_key_event(&mut app, KeyEvent { code: KeyCode::Up, modifiers: 0 });
    handle_key_event(&mut app, KeyEvent { code: KeyCode::Up, modifiers: 0 });
    assert_eq!(app.scroll_offset, 0);
    handle_key_event(&mut app, KeyEvent { code: KeyCode::Other, modifiers: 0 });
    assert!(!app.force_refresh);
    handle_key_event(&mut app, key('r'));
    assert!(app.force_refresh);
}

#[test]
fn sort_screen_scroll_asks_for_refresh() {
    let mut app = App::new(0);
    app.state = AppState::SortScreen;
    handle_key_event(&mut app, key('j'));
    assert_eq!(app.scroll_offset, 1);
    assert!(app.force_refresh);
    app.force_refresh = false;
    handle_key_event(&mut app, key('k'));
    assert_eq!(app.scroll_offset, 0);
    assert!(app.force_refresh);
}

#[test]
fn refresh_request_used_only_when_not_due() {
    let mut app = App::with_cli_builder(s("/"), 1, 0);
    app.force_refresh = true;
    assert!(poll_refresh(&mut app, 2 * SEC));
    assert!(app.force_refresh);
    assert!(poll_refresh(&mut app, 0));
    assert!(!app.force_refresh);
    assert!(!poll_refresh(&mut app, 0));
}

fn monitored_app() -> App {
    let mut app = App::new(0);
    app.current_stats = snapshot(1, &[("a", 10), ("b", 3), ("c", 7)]);
    app.begin_monitoring();
    app.refresh_stats(Ok(snapshot(2, &[("a", 12), ("b", 9), ("c", 7)])), 1).unwrap();
    app.refresh_stats(Ok(snapshot(3, &[("a", 20), ("b", 10), ("c", 7)])), 2).unwrap();
    app
}

fn keys_of(app: &App) -> Vec<String> {
    stats_rows(app).into_iter().map(|r| r.key).collect()
}

#[test]
fn rows_in_every_order() {
    let mut app = monitored_app();
    assert_eq!(keys_of(&app), vec![s("a"), s("b"), s("c")]);
    app.sort_algo = SortedBy::AlphabeticalDecending;
    assert_eq!(keys_of(&app), vec![s("c"), s("b"), s("a")]);
    app.sort_algo = SortedBy::TotalAscending;
    assert_eq!(keys_of(&app), vec![s("c"), s("b"), s("a")]);
    app.sort_algo = SortedBy::TotalDescending;
    assert_eq!(keys_of(&app), vec![s("a"), s("b"), s("c")]);
    app.sort_algo = SortedBy::SinceStartTotalDiffAscending;
    assert_eq!(keys_of(&app), vec![s("c"), s("b"), s("a")]);
    app.sort_algo = SortedBy::SinceStartTotalDiffDecending;
    assert_eq!(keys_of(&app), vec![s("a"), s("b"), s("c")]);
}

#[test]
fn row_values() {
    let app = monitored_app();
    let rows = stats_rows(&app);
    let a = &rows[0];
    assert_eq!((a.key.as_str(), a.delta, a.since_start, a.total), ("a", 8, 10, 20));
    let b = &rows[1];
    assert_eq!((b.key.as_str(), b.delta, b.since_start, b.total), ("b", 1, 7, 10));
    let c = &rows[2];
    assert_eq!((c.key.as_str(), c.delta, c.since_start, c.total), ("c", 0, 0, 7));
}

#[test]
fn rows_of_unknown_alphabetical_names_are_zero() {
    let mut app = monitored_app();
    app.alphabetical_sort.push(s("zzz"));
    let rows = stats_rows(&app);
    let z = &rows[3];
    assert_eq!((z.key.as_str(), z.delta, z.since_start, z.total), ("zzz", 0, 0, 0));
}

#[test]
fn scroll_is_clamped_to_the_screen() {
    let mut app = App::new(0);
    app.alphabetical_sort = (0..10).map(|i| format!("k{i}")).collect();
    app.scroll_offset = 100;
    assert_eq!(clamp_scroll(&mut app, 7), 6);
    assert_eq!(app.scroll_offset, 6);
    app.scroll_offset = 2;
    assert_eq!(clamp_scroll(&mut app, 7), 2);
    assert_eq!(app.scroll_offset, 2);
    app.scroll_offset = 5;
    assert_eq!(clamp_scroll(&mut app, 0), 5);
    assert_eq!(clamp_scroll(&mut app, 3), 5);
    assert_eq!(clamp_scroll(&mut app, 40), 0);
    assert_eq!(app.scroll_offset, 0);
}

#[test]
fn ties_follow_current_storage_order_and_redraw_is_stable() {
    let mut app = App::new(0);
    app.current_stats = snapshot(1, &[("z", 4), ("m", 4), ("a", 4), ("q", 1)]);
    app.begin_monitoring();
    app.sort_algo = SortedBy::TotalDescending;
    assert_eq!(keys_of(&app), vec![s("z"), s("m"), s("a"), s("q")]);
    app.sort_algo = SortedBy::SinceStartTotalDiffAscending;
    let first = keys_of(&app);
    assert_eq!(first, vec![s("z"), s("m"), s("a"), s("q")]);
    assert_eq!(keys_of(&app), first);
}
