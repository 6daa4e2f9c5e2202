use task_tabs::{
    classify, color_mode, fetch_args, locate, task_count, Action, App, Command, FetchError, InputEvent,
    Key, ReportStore, SelectedTab, IDLE_INTERVAL_SECS,
};

#[test]
fn next_saturates_at_last_tab() {
    let t = SelectedTab::Due.next().next();
    assert!(t == SelectedTab::Inbox);
    assert!(t.next() == SelectedTab::Inbox);
}

#[test]
fn previous_saturates_at_first_tab() {
    let t = SelectedTab::Inbox.previous().previous();
    assert!(t == SelectedTab::Due);
    assert!(t.previous() == SelectedTab::Due);
}

#[test]
fn row_count_of_header_and_rows() {
    assert_eq!(task_count("head\na\nb\nc\nd"), 4);
    assert_eq!(task_count("head"), 0);
    assert_eq!(task_count(""), 0);
}

#[test]
fn locate_by_label_widths() {
    let widths: Vec<u64> = vec![9, 12, 11];
    assert_eq!(locate(3, &widths), Some(0));
    assert_eq!(locate(9, &widths), Some(1));
    assert_eq!(locate(31, &widths), Some(2));
    assert_eq!(locate(32, &widths), None);
}

#[test]
fn classify_keys_and_timeouts() {
    assert!(classify(InputEvent::KeyPress(Key::Char('l'))) == Command::MoveNext);
    assert!(classify(InputEvent::KeyPress(Key::Left)) == Command::MovePrevious);
    assert!(classify(InputEvent::KeyPress(Key::Esc)) == Command::Quit);
    assert!(classify(InputEvent::KeyPress(Key::Char('z'))) == Command::Ignore);
    assert!(classify(InputEvent::KeyOther(Key::Right)) == Command::Ignore);
    assert!(classify(InputEvent::TimedOut) == Command::Refresh);
    assert!(classify(InputEvent::PointerDown(3, 0)) == Command::PointerDown(3, 0));
}

fn batch(due: usize, active: usize, inbox: usize) -> Vec<String> {
    let mut v: Vec<String> = Vec::new();
    for n in [due, active, inbox] {
        let mut text = String::from("ID Description");
        for i in 0..n {
            text.push_str(&format!("\n{} task", i + 1));
        }
        v.push(text);
    }
    v
}

fn scenario_a() -> App {
    match App::start(Ok(batch(4, 1, 0))) {
        Ok(app) => app,
        Err(_) => panic!("session should start"),
    }
}

#[test]
fn initial_labels_in_order() {
    let app = scenario_a();
    assert!(app.selected_tab == SelectedTab::Due);
    assert!(app.running);
    assert_eq!(SelectedTab::Due.title(app.reports.get(SelectedTab::Due)), " Due (4) ");
    assert_eq!(SelectedTab::Active.title(app.reports.get(SelectedTab::Active)), " Active (1) ");
    assert_eq!(SelectedTab::Inbox.title(app.reports.get(SelectedTab::Inbox)), " Inbox (0) ");
    assert_eq!(app.reports.label_widths(), vec![9, 12, 11]);
}

#[test]
fn move_next_saturates_in_session() {
    let mut app = scenario_a();
    assert!(app.step(Command::MoveNext, 0) == Action::Continue);
    assert!(app.step(Command::MoveNext, 0) == Action::Continue);
    assert!(app.selected_tab == SelectedTab::Inbox);
    app.step(Command::MoveNext, 0);
    assert!(app.selected_tab == SelectedTab::Inbox);
    app.step(Command::MovePrevious, 0);
    assert!(app.selected_tab == SelectedTab::Active);
}

#[test]
fn pointer_selects_by_label_region() {
    let mut app = scenario_a();
    app.next_tab();
    app.next_tab();
    app.step(Command::PointerDown(3, 0), 0);
    assert!(app.selected_tab == SelectedTab::Due);
    app.step(Command::PointerDown(10, 0), 0);
    assert!(app.selected_tab == SelectedTab::Active);
    assert!(app.mouse_cord_to_tab(31) == Some(SelectedTab::Inbox));
    assert!(app.mouse_cord_to_tab(32).is_none());
    app.step(Command::PointerDown(3, 5), 0);
    assert!(app.selected_tab == SelectedTab::Active);
    app.step(Command::PointerDown(40, 0), 0);
    assert!(app.selected_tab == SelectedTab::Active);
}

#[test]
fn idle_refresh_updates_counts_keeps_tab() {
    let mut app = scenario_a();
    app.next_tab();
    let a = app.step(classify(InputEvent::TimedOut), 0);
    assert!(a == Action::Refresh);
    assert!(app.apply_refresh(Ok(batch(12, 0, 3))).is_ok());
    assert!(app.selected_tab == SelectedTab::Active);
    assert_eq!(app.reports.row_count(SelectedTab::Due), 12);
    assert_eq!(SelectedTab::Due.title(app.reports.get(SelectedTab::Due)), " Due (12) ");
    assert_eq!(app.reports.label_widths(), vec![10, 12, 11]);
    assert_eq!(IDLE_INTERVAL_SECS, 2);
}

#[test]
fn failed_refresh_keeps_previous_reports() {
    let mut app = scenario_a();
    assert!(app.apply_refresh(Err(FetchError::Failed)) == Err(FetchError::Failed));
    assert_eq!(app.reports.row_count(SelectedTab::Due), 4);
    let short: Vec<String> = vec![String::from("h")];
    assert!(app.apply_refresh(Ok(short)) == Err(FetchError::Incomplete));
    assert_eq!(app.reports.row_count(SelectedTab::Active), 1);
}

#[test]
fn failed_first_fetch_starts_no_session() {
    assert!(matches!(App::start(Err(FetchError::Failed)), Err(FetchError::Failed)));
    assert!(matches!(App::start(Ok(Vec::new())), Err(FetchError::Incomplete)));
}

#[test]
fn quit_ends_session() {
    let mut app = scenario_a();
    assert!(app.step(Command::Quit, 0) == Action::Exit);
    assert!(!app.running);
    assert!(app.selected_tab == SelectedTab::Due);
    assert!(app.step(Command::Ignore, 0) == Action::Continue);
}

#[test]
fn directive_table() {
    assert_eq!(fetch_args(SelectedTab::Due), "project.not:Bethany due");
    assert_eq!(fetch_args(SelectedTab::Active), "project.not:Bethany active");
    assert_eq!(fetch_args(SelectedTab::Inbox), "-PROJECT");
    assert!(color_mode(SelectedTab::Due));
    assert!(!color_mode(SelectedTab::Active));
    assert!(color_mode(SelectedTab::Inbox));
}

#[test]
fn store_get_and_counts() {
    let mut store = ReportStore::new(batch(0, 2, 1));
    assert_eq!(store.get(SelectedTab::Due), "ID Description");
    assert_eq!(store.row_count(SelectedTab::Active), 2);
    store.replace_all(vec![String::new(), String::from("a\nb\n"), String::from("x")]);
    assert_eq!(store.row_count(SelectedTab::Due), 0);
    assert_eq!(store.row_count(SelectedTab::Active), 1);
    assert_eq!(SelectedTab::Due.title(store.get(SelectedTab::Due)), " Due (0) ");
    assert_eq!(task_count("h\n\nc"), 2);
}
