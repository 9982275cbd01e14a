use shuttle::item::Item;
use shuttle::matcher::SimpleMatcher;
use shuttle::session::{Command, LoadedState, Outcome, ShuttleApp, ShuttleState};

fn item(label: &str, value: &str) -> Item {
    Item::from_repo(label.to_string(), value.to_string())
}

fn sample() -> Vec<Item> {
    vec![
        item("alpha/one", "https://example.test/alpha-one"),
        item("beta/two", "https://example.test/beta-two"),
        item("alpha/three", "https://example.test/alpha-three"),
    ]
}

fn filtered_labels<M: shuttle::matcher::Matcher>(app: &ShuttleApp<M>) -> Vec<String> {
    match &app.state {
        ShuttleState::Loaded(st) => st
            .filtered
            .as_ref()
            .map(|f| f.iter().map(|it| it.label.clone()).collect())
            .unwrap_or_default(),
        ShuttleState::Loading => panic!("still loading"),
    }
}

fn selected<M: shuttle::matcher::Matcher>(app: &ShuttleApp<M>) -> usize {
    match &app.state {
        ShuttleState::Loaded(st) => st.selected,
        ShuttleState::Loading => panic!("still loading"),
    }
}

#[test]
fn end_to_end_substring_then_incremental() {
    let mut app = ShuttleApp::new(SimpleMatcher);
    app.set_loaded(sample());
    app.handle_command(Command::AppendText("al".to_string()));
    assert_eq!(filtered_labels(&app), vec!["alpha/one", "alpha/three"]);
    app.handle_command(Command::AppendText("pha t".to_string()));
    assert_eq!(filtered_labels(&app), vec!["alpha/three"]);
}

#[test]
fn selection_preserved_across_narrowing() {
    let mut app = ShuttleApp::new(SimpleMatcher);
    app.set_loaded(sample());
    app.handle_command(Command::AppendText("al".to_string()));
    app.handle_command(Command::MoveDown);
    assert_eq!(selected(&app), 1); // alpha/three
    app.handle_command(Command::AppendText("pha t".to_string()));
    // alpha/three is still present, now first: the highlight follows it.
    assert_eq!(filtered_labels(&app), vec!["alpha/three"]);
    assert_eq!(selected(&app), 0);
}

#[test]
fn selection_resets_when_item_drops_out() {
    let mut app = ShuttleApp::new(SimpleMatcher);
    app.set_loaded(sample());
    app.handle_command(Command::AppendText("a".to_string()));
    assert_eq!(
        filtered_labels(&app),
        vec!["alpha/one", "beta/two", "alpha/three"]
    );
    app.handle_command(Command::MoveDown);
    assert_eq!(selected(&app), 1); // beta/two
    app.handle_command(Command::AppendText("lpha".to_string()));
    assert_eq!(filtered_labels(&app), vec!["alpha/one", "alpha/three"]);
    assert_eq!(selected(&app), 0);
}

#[test]
fn navigation_wraps_both_ways() {
    let mut app = ShuttleApp::new(SimpleMatcher);
    app.set_loaded(sample());
    app.handle_command(Command::Clear); // forces the first filtering run
    assert_eq!(selected(&app), 0);
    app.handle_command(Command::MoveUp);
    assert_eq!(selected(&app), 2);
    app.handle_command(Command::MoveDown);
    assert_eq!(selected(&app), 0);
    app.handle_command(Command::MoveDown);
    assert_eq!(selected(&app), 1);
}

#[test]
fn navigation_is_a_noop_on_empty_filtered_list() {
    let mut app = ShuttleApp::new(SimpleMatcher);
    app.set_loaded(sample());
    app.handle_command(Command::AppendText("zzz".to_string()));
    assert_eq!(filtered_labels(&app), Vec::<String>::new());
    app.handle_command(Command::MoveDown);
    assert_eq!(selected(&app), 0);
    app.handle_command(Command::MoveUp);
    assert_eq!(selected(&app), 0);
}

#[test]
fn backspace_widens_again() {
    let mut app = ShuttleApp::new(SimpleMatcher);
    app.set_loaded(sample());
    app.handle_command(Command::AppendText("alpha t".to_string()));
    assert_eq!(filtered_labels(&app), vec!["alpha/three"]);
    app.handle_command(Command::Backspace);
    app.handle_command(Command::Backspace);
    assert_eq!(app.query, "alpha");
    assert_eq!(filtered_labels(&app), vec!["alpha/one", "alpha/three"]);
}

#[test]
fn backspace_removes_whole_codepoint() {
    let mut app = ShuttleApp::new(SimpleMatcher);
    app.handle_command(Command::AppendText("aé".to_string()));
    assert_eq!(app.query, "aé");
    app.handle_command(Command::Backspace);
    assert_eq!(app.query, "a");
}

#[test]
fn delete_word_truncates_to_after_last_space() {
    let mut app = ShuttleApp::new(SimpleMatcher);
    app.handle_command(Command::AppendText("foo bar".to_string()));
    app.handle_command(Command::DeleteWord);
    assert_eq!(app.query, "foo ");
    app.handle_command(Command::DeleteWord);
    assert_eq!(app.query, "");
}

#[test]
fn clear_empties_query_and_restores_full_list() {
    let mut app = ShuttleApp::new(SimpleMatcher);
    app.set_loaded(sample());
    app.handle_command(Command::AppendText("alpha t".to_string()));
    app.handle_command(Command::Clear);
    assert_eq!(app.query, "");
    assert_eq!(
        filtered_labels(&app),
        vec!["alpha/one", "beta/two", "alpha/three"]
    );
}

#[test]
fn activate_returns_selected_value() {
    let mut app = ShuttleApp::new(SimpleMatcher);
    app.set_loaded(sample());
    app.handle_command(Command::AppendText("al".to_string()));
    app.handle_command(Command::MoveDown);
    let out = app.handle_command(Command::Activate);
    match out {
        Outcome::Launch(v) => assert_eq!(v, "https://example.test/alpha-three"),
        _ => panic!("expected a launch"),
    }
}

#[test]
fn activate_on_empty_filtered_list_is_a_noop() {
    let mut app = ShuttleApp::new(SimpleMatcher);
    app.set_loaded(sample());
    app.handle_command(Command::AppendText("zzz".to_string()));
    assert!(matches!(
        app.handle_command(Command::Activate),
        Outcome::Continue
    ));
}

#[test]
fn quit_terminates_even_while_loading() {
    let mut app = ShuttleApp::new(SimpleMatcher);
    assert!(matches!(
        app.handle_command(Command::AppendText("x".to_string())),
        Outcome::Continue
    ));
    assert!(matches!(app.state, ShuttleState::Loading));
    assert!(matches!(
        app.handle_command(Command::Quit),
        Outcome::Terminate
    ));
}

#[test]
fn direct_state_wraparound() {
    let mut st = LoadedState {
        all: sample(),
        filtered: Some(sample()),
        selected: 2,
    };
    st.move_down();
    assert_eq!(st.selected, 0);
    st.move_up();
    assert_eq!(st.selected, 2);
}

#[test]
fn selection_survives_a_widening_edit() {
    let mut app = ShuttleApp::new(SimpleMatcher);
    app.set_loaded(sample());
    app.handle_command(Command::AppendText("alpha t".to_string()));
    assert_eq!(filtered_labels(&app), vec!["alpha/three"]);
    assert_eq!(selected(&app), 0);
    // Backspace recomputes from the full list; the highlighted item is
    // still present there and the highlight follows it to its new row.
    app.handle_command(Command::Backspace);
    app.handle_command(Command::Backspace);
    assert_eq!(filtered_labels(&app), vec!["alpha/one", "alpha/three"]);
    assert_eq!(selected(&app), 1);
}
