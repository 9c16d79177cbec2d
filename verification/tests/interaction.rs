//! Tests of the session controller: modes, query editing, ticking, cursor
//! movement and confirmation.

use hui::session::App;
use hui::session::AppEvent;
use hui::session::InputMode;
use hui::session::Step;

fn strings(v: &[&str]) -> Vec<String> {
    v.iter().map(|s| s.to_string()).collect()
}

fn sample_app() -> App {
    App::new(strings(&["git status", "git commit -m fix", "ls -la"]))
}

fn type_text(app: &mut App, text: &str) {
    for c in text.chars() {
        app.handle_event(AppEvent::Char(c));
    }
}

#[test]
fn new_session_browses_full_corpus() {
    let app = sample_app();
    assert_eq!(app.mode(), InputMode::Normal);
    assert_eq!(app.cursor(), 0);
    assert!(app.query().is_empty());
    assert_eq!(app.results(), &strings(&["git status", "git commit -m fix", "ls -la"]));
}

#[test]
fn cursor_wraps_after_full_cycle() {
    let mut app = sample_app();
    app.handle_event(AppEvent::Down);
    assert_eq!(app.cursor(), 1);
    app.handle_event(AppEvent::Down);
    app.handle_event(AppEvent::Down);
    assert_eq!(app.cursor(), 0);
}

#[test]
fn cursor_retreats_from_front_to_back() {
    let mut app = sample_app();
    app.handle_event(AppEvent::Up);
    assert_eq!(app.cursor(), 2);
}

#[test]
fn scroll_events_move_cursor() {
    let mut app = sample_app();
    app.handle_event(AppEvent::ScrollDown);
    assert_eq!(app.cursor(), 1);
    app.handle_event(AppEvent::ScrollUp);
    assert_eq!(app.cursor(), 0);
}

#[test]
fn cursor_stays_put_on_empty_view() {
    let mut app = App::new(Vec::new());
    app.handle_event(AppEvent::Down);
    assert_eq!(app.cursor(), 0);
    app.handle_event(AppEvent::Up);
    assert_eq!(app.cursor(), 0);
}

#[test]
fn slash_enters_editing_and_clears_query() {
    let mut app = sample_app();
    type_text(&mut app, "leftover");
    assert_eq!(app.mode(), InputMode::Normal);
    assert!(app.query().is_empty());
    app.handle_event(AppEvent::Char('/'));
    assert_eq!(app.mode(), InputMode::Editing);
    assert!(app.query().is_empty());
    assert_eq!(app.query_pos(), 0);
}

#[test]
fn click_on_input_region_enters_editing() {
    let mut app = sample_app();
    app.handle_event(AppEvent::ClickInput);
    assert_eq!(app.mode(), InputMode::Editing);
}

#[test]
fn click_on_list_region_stops_editing() {
    let mut app = sample_app();
    app.handle_event(AppEvent::Char('/'));
    app.handle_event(AppEvent::ClickList);
    assert_eq!(app.mode(), InputMode::Normal);
}

#[test]
fn typing_inserts_at_edit_cursor() {
    let mut app = sample_app();
    app.handle_event(AppEvent::Char('/'));
    type_text(&mut app, "ac");
    app.handle_event(AppEvent::Left);
    app.handle_event(AppEvent::Char('b'));
    let q: String = app.query().iter().collect();
    assert_eq!(q, "abc");
    assert_eq!(app.query_pos(), 2);
}

#[test]
fn backspace_removes_before_edit_cursor() {
    let mut app = sample_app();
    app.handle_event(AppEvent::Char('/'));
    type_text(&mut app, "abc");
    app.handle_event(AppEvent::Left);
    app.handle_event(AppEvent::Backspace);
    let q: String = app.query().iter().collect();
    assert_eq!(q, "ac");
    assert_eq!(app.query_pos(), 1);
}

#[test]
fn edit_cursor_clamps_at_both_ends() {
    let mut app = sample_app();
    app.handle_event(AppEvent::Char('/'));
    type_text(&mut app, "ab");
    app.handle_event(AppEvent::Right);
    app.handle_event(AppEvent::Right);
    assert_eq!(app.query_pos(), 2);
    app.handle_event(AppEvent::Left);
    app.handle_event(AppEvent::Left);
    app.handle_event(AppEvent::Left);
    assert_eq!(app.query_pos(), 0);
    app.handle_event(AppEvent::Backspace);
    let q: String = app.query().iter().collect();
    assert_eq!(q, "ab");
}

#[test]
fn tick_reranks_only_after_query_change() {
    let mut app = sample_app();
    app.handle_event(AppEvent::Char('/'));
    type_text(&mut app, "gc");
    app.on_tick();
    let results = app.results().clone();
    assert!(results.contains(&"git commit -m fix".to_string()));
    assert!(!results.contains(&"ls -la".to_string()));
    // A tick without a text change keeps the view as it is.
    app.on_tick();
    assert_eq!(app.results(), &results);
}

#[test]
fn tick_in_browsing_mode_changes_nothing() {
    let mut app = sample_app();
    let before = app.results().clone();
    app.on_tick();
    assert_eq!(app.results(), &before);
    assert_eq!(app.mode(), InputMode::Normal);
}

#[test]
fn empty_query_tick_shows_full_corpus() {
    let mut app = sample_app();
    app.handle_event(AppEvent::Char('/'));
    type_text(&mut app, "gc");
    app.on_tick();
    // Deleting the query back to empty and ticking restores the corpus.
    app.handle_event(AppEvent::Backspace);
    app.handle_event(AppEvent::Backspace);
    app.on_tick();
    assert_eq!(app.results(), &strings(&["git status", "git commit -m fix", "ls -la"]));
}

#[test]
fn cancel_resets_filter() {
    let mut app = sample_app();
    app.handle_event(AppEvent::Char('/'));
    type_text(&mut app, "gc");
    app.on_tick();
    assert!(app.results().len() < 3);
    app.handle_event(AppEvent::Esc);
    assert_eq!(app.mode(), InputMode::Normal);
    assert!(app.query().is_empty());
    assert_eq!(app.results(), &strings(&["git status", "git commit -m fix", "ls -la"]));
    assert_eq!(app.cursor(), 0);
}

#[test]
fn enter_while_editing_keeps_filter_and_browses() {
    let mut app = sample_app();
    app.handle_event(AppEvent::Char('/'));
    type_text(&mut app, "gc");
    app.on_tick();
    let filtered = app.results().clone();
    app.handle_event(AppEvent::Enter);
    assert_eq!(app.mode(), InputMode::Normal);
    assert_eq!(app.results(), &filtered);
}

#[test]
fn move_while_editing_stops_editing_and_moves() {
    let mut app = sample_app();
    app.handle_event(AppEvent::Char('/'));
    app.handle_event(AppEvent::Down);
    assert_eq!(app.mode(), InputMode::Normal);
    assert_eq!(app.cursor(), 1);
}

#[test]
fn quit_returns_no_selection() {
    let mut app = sample_app();
    let step = app.handle_event(AppEvent::Char('q'));
    assert!(matches!(step, Step::Quit));
}

#[test]
fn confirm_returns_selected_entry() {
    let mut app = sample_app();
    app.handle_event(AppEvent::Down);
    let step = app.handle_event(AppEvent::Enter);
    match step {
        Step::Confirmed(s) => assert_eq!(s, "git commit -m fix".to_string()),
        _ => panic!("expected a confirmed selection"),
    }
}

#[test]
fn confirm_on_empty_view_returns_empty_string() {
    let mut app = App::new(Vec::new());
    let step = app.handle_event(AppEvent::Enter);
    match step {
        Step::Confirmed(s) => assert_eq!(s, String::new()),
        _ => panic!("expected a confirmed selection"),
    }
}

#[test]
fn end_to_end_scenario() {
    let mut app = sample_app();
    app.handle_event(AppEvent::Char('/'));
    type_text(&mut app, "gc");
    app.on_tick();
    let results = app.results().clone();
    assert!(results.contains(&"git commit -m fix".to_string()));
    assert!(!results.contains(&"ls -la".to_string()));
    let step = app.handle_event(AppEvent::Enter);
    assert!(matches!(step, Step::Continue));
    let step = app.handle_event(AppEvent::Enter);
    match step {
        Step::Confirmed(s) => assert_eq!(s, results[0]),
        _ => panic!("expected a confirmed selection"),
    }
}
