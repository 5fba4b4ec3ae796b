use hun::db::{Db, HistoryEntry};
use hun::ui::screen::{
    line_with_time, render, render_line, HIGHLIGHT_SYMBOL, INPUT_HEIGHT, INPUT_TITLE, LIST_TITLE,
    TIME_PATTERN,
};
use hun::ui::SearchSession;

fn entry(id: i64, command: &str, timestamp: i64, exit_code: Option<i32>) -> HistoryEntry {
    HistoryEntry {
        id,
        command: command.to_string(),
        timestamp,
        cwd: None,
        exit_code,
        session_id: None,
        hostname: None,
    }
}

#[test]
fn a_line_shows_mark_time_and_command() {
    let line = render_line(&entry(1, "cargo test", 1_431_648_000, Some(0)));
    assert_eq!(line.mark, "\u{2705} ");
    assert_eq!(line.stamp, "[2015-05-15 00:00:00] ");
    assert_eq!(line.command, "cargo test");
}

#[test]
fn a_failed_command_gets_the_other_mark() {
    let line = render_line(&entry(1, "false", 1_700_000_000, Some(1)));
    assert_eq!(line.mark, "\u{274c} ");
    assert_eq!(line.stamp, "[2023-11-14 22:13:20] ");
    let line = render_line(&entry(1, "kill", 0, Some(-9)));
    assert_eq!(line.mark, "\u{274c} ");
}

#[test]
fn an_unknown_exit_status_counts_as_success() {
    let line = render_line(&entry(1, "sleep 1", 59, None));
    assert_eq!(line.mark, "\u{2705} ");
    assert_eq!(line.stamp, "[1970-01-01 00:00:59] ");
}

#[test]
fn a_time_before_the_epoch_is_written_out() {
    let line = render_line(&entry(1, "old", -1, Some(0)));
    assert_eq!(line.stamp, "[1969-12-31 23:59:59] ");
}

#[test]
fn a_time_that_is_no_date_is_shown_as_the_epoch() {
    let line = render_line(&entry(1, "odd", i64::MAX, Some(0)));
    assert_eq!(line.stamp, "[1970-01-01 00:00:00] ");
    let line = render_line(&entry(1, "odd", i64::MIN, Some(0)));
    assert_eq!(line.stamp, "[1970-01-01 00:00:00] ");
}

#[test]
fn the_screen_follows_the_session() {
    let db = Db::init(vec![
        entry(1, "git status", 86_400, Some(0)),
        entry(2, "git psuh", 86_401, Some(1)),
        entry(3, "ls", 86_402, None),
    ])
    .unwrap();
    let mut session = SearchSession::new(db, Some("git".to_string()));
    session.move_next();
    let screen = render(&session);
    assert_eq!(screen.input, "git");
    assert_eq!(screen.highlighted, Some(1));
    assert_eq!(screen.lines.len(), 2);
    assert_eq!(screen.lines[0].mark, "\u{274c} ");
    assert_eq!(screen.lines[0].stamp, "[1970-01-02 00:00:01] ");
    assert_eq!(screen.lines[0].command, "git psuh");
    assert_eq!(screen.lines[1].mark, "\u{2705} ");
    assert_eq!(screen.lines[1].stamp, "[1970-01-02 00:00:00] ");
    assert_eq!(screen.lines[1].command, "git status");
}

#[test]
fn the_screen_of_an_empty_session() {
    let session = SearchSession::new(Db::init(Vec::new()).unwrap(), None);
    let screen = render(&session);
    assert_eq!(screen.input, "");
    assert!(screen.lines.is_empty());
    assert_eq!(screen.highlighted, None);
}

#[test]
fn a_line_frames_the_time_it_is_given() {
    let line = line_with_time(&entry(3, "top", 0, Some(0)), "noon");
    assert_eq!(line.mark, "\u{2705} ");
    assert_eq!(line.stamp, "[noon] ");
    assert_eq!(line.command, "top");
    let line = line_with_time(&entry(3, "top", 0, Some(7)), "");
    assert_eq!(line.mark, "\u{274c} ");
    assert_eq!(line.stamp, "[] ");
}

#[test]
fn the_fixed_texts_of_the_screen() {
    assert_eq!(INPUT_TITLE, "Search");
    assert_eq!(LIST_TITLE, "History");
    assert_eq!(HIGHLIGHT_SYMBOL, ">> ");
    assert_eq!(INPUT_HEIGHT, 3);
    assert_eq!(TIME_PATTERN, "%Y-%m-%d %H:%M:%S");
}

#[test]
fn a_time_is_written_with_two_digits_for_each_part() {
    let line = render_line(&entry(1, "date", 951_786_245, Some(0)));
    assert_eq!(line.stamp, "[2000-02-29 01:04:05] ");
}
