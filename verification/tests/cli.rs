use hun::cli::{report_stats, Cli, Commands, Outcome};
use hun::db::{HistoryEntry, StorageError};
use hun::text::decimal_text;

fn entry(id: i64, command: &str, timestamp: i64) -> HistoryEntry {
    HistoryEntry {
        id,
        command: command.to_string(),
        timestamp,
        cwd: None,
        exit_code: None,
        session_id: None,
        hostname: None,
    }
}

#[test]
fn numbers_are_written_in_decimal() {
    assert_eq!(decimal_text(0), "0");
    assert_eq!(decimal_text(7), "7");
    assert_eq!(decimal_text(10), "10");
    assert_eq!(decimal_text(1203), "1203");
    assert_eq!(decimal_text(9_876_543_210), "9876543210");
    assert_eq!(decimal_text(usize::MAX), usize::MAX.to_string());
}

#[test]
fn the_report_has_a_header_and_ranks_from_one() {
    let lines = report_stats(&vec![("ls".to_string(), 3), ("cd /tmp".to_string(), 1)]);
    assert_eq!(lines, vec!["\u{1f525} Top 10 Commands:", "1. ls (3)", "2. cd /tmp (1)"]);
}

#[test]
fn the_report_of_nothing_is_the_header() {
    let lines = report_stats(&Vec::new());
    assert_eq!(lines, vec!["\u{1f525} Top 10 Commands:"]);
}

#[test]
fn the_report_writes_large_numbers_out() {
    let mut stats = Vec::new();
    for k in 0..10usize {
        stats.push((format!("c{}", k), 1000 - k));
    }
    let lines = report_stats(&stats);
    assert_eq!(lines.len(), 11);
    assert_eq!(lines[1], "1. c0 (1000)");
    assert_eq!(lines[10], "10. c9 (991)");
}

#[test]
fn add_appends_and_hands_the_entry_back() {
    let db = vec![entry(1, "a", 1), entry(2, "b", 2)];
    let cli = Cli {
        command: Commands::Add {
            cmd: "cargo run".to_string(),
            cwd: Some("/proj".to_string()),
            exit_code: Some(3),
            session_id: None,
        },
    };
    match cli.dispatch(Ok(db)) {
        Ok(Outcome::Added(e)) => {
            assert_eq!(e.id, 3);
            assert_eq!(e.command, "cargo run");
            assert_eq!(e.cwd.as_deref(), Some("/proj"));
            assert_eq!(e.exit_code, Some(3));
            assert_eq!(e.session_id, None);
        }
        _ => panic!("add must hand the entry back"),
    }
}

#[test]
fn add_to_a_full_store_fails() {
    let db = vec![entry(i64::MAX, "a", 1)];
    let cli = Cli {
        command: Commands::Add { cmd: "x".to_string(), cwd: None, exit_code: None, session_id: None },
    };
    assert!(matches!(cli.dispatch(Ok(db)), Err(StorageError::Unwritable)));
}

#[test]
fn search_starts_a_session_with_the_query() {
    let db = vec![entry(1, "make", 1), entry(2, "make test", 2), entry(3, "ls", 3)];
    let cli = Cli { command: Commands::Search { query: Some("make".to_string()) } };
    match cli.dispatch(Ok(db)) {
        Ok(Outcome::Search(session)) => {
            assert_eq!(session.query(), "make");
            assert_eq!(session.results().len(), 2);
            assert_eq!(session.cursor(), Some(0));
            assert_eq!(session.results()[0].command, "make test");
        }
        _ => panic!("search must start a session"),
    }
}

#[test]
fn search_without_a_query_lists_everything() {
    let db = vec![entry(1, "make", 1), entry(2, "ls", 2)];
    let cli = Cli { command: Commands::Search { query: None } };
    match cli.dispatch(Ok(db)) {
        Ok(Outcome::Search(session)) => {
            assert_eq!(session.query(), "");
            assert_eq!(session.results().len(), 2);
        }
        _ => panic!("search must start a session"),
    }
}

#[test]
fn stats_prints_the_most_frequent_first() {
    let db = vec![entry(1, "ls", 1), entry(2, "cd", 2), entry(3, "ls", 3), entry(4, "ls", 4)];
    let cli = Cli { command: Commands::Stats };
    match cli.dispatch(Ok(db)) {
        Ok(Outcome::Stats(lines)) => {
            assert_eq!(lines, vec!["\u{1f525} Top 10 Commands:", "1. ls (3)", "2. cd (1)"]);
        }
        _ => panic!("stats must give lines"),
    }
}

fn add(cmd: &str) -> Cli {
    Cli {
        command: Commands::Add { cmd: cmd.to_string(), cwd: None, exit_code: None, session_id: None },
    }
}

#[test]
fn add_to_an_empty_log_gives_the_first_identity() {
    match add("first").dispatch(Ok(Vec::new())) {
        Ok(Outcome::Added(e)) => {
            assert_eq!(e.id, 1);
            assert_eq!(e.command, "first");
        }
        _ => panic!("add must hand the entry back"),
    }
}

#[test]
fn add_and_stats_end_where_the_log_cannot_be_read() {
    assert!(matches!(
        add("x").dispatch(Err(StorageError::Unreachable)),
        Err(StorageError::Unreachable)
    ));
    let stats = Cli { command: Commands::Stats };
    assert!(matches!(
        stats.dispatch(Err(StorageError::Unreachable)),
        Err(StorageError::Unreachable)
    ));
}

#[test]
fn add_and_stats_end_on_rows_that_are_no_log() {
    let rows = || vec![entry(2, "a", 1), entry(1, "b", 2)];
    assert!(matches!(add("x").dispatch(Ok(rows())), Err(StorageError::Corrupt)));
    let stats = Cli { command: Commands::Stats };
    assert!(matches!(stats.dispatch(Ok(rows())), Err(StorageError::Corrupt)));
}

#[test]
fn search_goes_on_with_nothing_listed_where_the_log_cannot_be_read() {
    let cli = Cli { command: Commands::Search { query: Some("git".to_string()) } };
    match cli.dispatch(Err(StorageError::Unreachable)) {
        Ok(Outcome::Search(mut session)) => {
            assert_eq!(session.query(), "git");
            assert!(session.results().is_empty());
            assert_eq!(session.cursor(), None);
            session.append_char('x');
            assert_eq!(session.query(), "gitx");
            assert_eq!(session.cursor(), None);
        }
        _ => panic!("search must start a session"),
    }
    let cli = Cli { command: Commands::Search { query: None } };
    match cli.dispatch(Ok(vec![entry(2, "a", 1), entry(2, "b", 2)])) {
        Ok(Outcome::Search(session)) => assert!(session.results().is_empty()),
        _ => panic!("search must start a session"),
    }
}

#[test]
fn errors_say_what_went_wrong() {
    assert_eq!(StorageError::Unreachable.message(), "the history store cannot be reached");
    assert_eq!(StorageError::Unwritable.message(), "the history store cannot take another entry");
    assert_eq!(StorageError::Corrupt.message(), "the history store does not hold a history");
}
