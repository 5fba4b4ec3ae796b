use hun::db::{Db, HistoryEntry, StorageError, DATABASE_FILE, DATA_SUBDIRECTORY};

fn entry(id: i64, command: &str, timestamp: i64, exit_code: Option<i32>) -> HistoryEntry {
    HistoryEntry {
        id,
        command: command.to_string(),
        timestamp,
        cwd: None,
        exit_code,
        session_id: None,
        hostname: None,
    }
}

fn empty_store() -> Db {
    Db::empty()
}

#[test]
fn an_empty_store_and_one_made_from_no_rows_are_alike() {
    let made = Db::init(Vec::new()).unwrap();
    assert!(made.entries().is_empty());
    assert!(Db::empty().entries().is_empty());
    assert!(Db::empty().search_entries("").unwrap().is_empty());
}

#[test]
fn test_db_insertion_and_search() {
    let mut db = empty_store();

    db.add_entry("echo test", Some("/tmp"), Some(0), Some("session1")).unwrap();
    db.add_entry("ls -la", Some("/home"), Some(1), Some("session1")).unwrap();

    let results = db.search_entries("echo").unwrap();
    assert_eq!(results.len(), 1);
    assert_eq!(results[0].command, "echo test");
    assert_eq!(results[0].exit_code, Some(0));

    let all_results = db.search_entries("").unwrap();
    assert_eq!(all_results.len(), 2);
}

#[test]
fn round_trip_keeps_every_field() {
    let mut db = empty_store();
    let id = db
        .record(
            "cargo build".to_string(),
            1_700_000_000,
            Some("/work".to_string()),
            Some(101),
            Some("s-1".to_string()),
            Some("box".to_string()),
        )
        .unwrap();
    assert_eq!(id, 1);
    let found = db.search_entries("").unwrap();
    assert_eq!(found.len(), 1);
    assert_eq!(found[0].id, 1);
    assert_eq!(found[0].command, "cargo build");
    assert_eq!(found[0].timestamp, 1_700_000_000);
    assert_eq!(found[0].cwd.as_deref(), Some("/work"));
    assert_eq!(found[0].exit_code, Some(101));
    assert_eq!(found[0].session_id.as_deref(), Some("s-1"));
    assert_eq!(found[0].hostname.as_deref(), Some("box"));
}

#[test]
fn add_entry_round_trip_but_for_hostname() {
    let mut db = empty_store();
    let id = db.add_entry("make", Some("/src"), Some(2), Some("tty1")).unwrap();
    assert_eq!(id, 1);
    let found = db.search_entries("").unwrap();
    assert_eq!(found.len(), 1);
    assert_eq!(found[0].id, 1);
    assert_eq!(found[0].command, "make");
    assert_eq!(found[0].cwd.as_deref(), Some("/src"));
    assert_eq!(found[0].exit_code, Some(2));
    assert_eq!(found[0].session_id.as_deref(), Some("tty1"));
    // The clock of any machine that runs this stands long after 2020.
    assert!(found[0].timestamp > 1_577_836_800);
}

#[test]
fn add_entry_without_optional_fields() {
    let mut db = empty_store();
    db.add_entry("pwd", None, None, None).unwrap();
    let all = db.entries();
    assert_eq!(all.len(), 1);
    assert_eq!(all[0].command, "pwd");
    assert_eq!(all[0].cwd, None);
    assert_eq!(all[0].exit_code, None);
    assert_eq!(all[0].session_id, None);
}

#[test]
fn identities_grow_from_one() {
    let mut db = empty_store();
    assert_eq!(db.add_entry("a", None, None, None), Ok(1));
    assert_eq!(db.add_entry("b", None, None, None), Ok(2));
    assert_eq!(db.record("c".to_string(), 0, None, None, None, None), Ok(3));
    let ids: Vec<i64> = db.entries().iter().map(|e| e.id).collect();
    assert_eq!(ids, vec![1, 2, 3]);
}

#[test]
fn identities_go_on_from_the_last_row() {
    let mut db = Db::init(vec![entry(7, "a", 1, None), entry(40, "b", 2, None)]).unwrap();
    assert_eq!(db.record("c".to_string(), 3, None, None, None, None), Ok(41));
}

#[test]
fn init_keeps_the_rows() {
    let db = Db::init(vec![entry(1, "a", 10, None), entry(2, "b", 20, Some(1))]).unwrap();
    let all = db.entries();
    assert_eq!(all.len(), 2);
    assert_eq!(all[0].command, "a");
    assert_eq!(all[1].command, "b");
    assert_eq!(all[1].exit_code, Some(1));
}

#[test]
fn init_refuses_identities_that_do_not_grow() {
    let same = Db::init(vec![entry(1, "a", 10, None), entry(1, "b", 20, None)]);
    assert_eq!(same.err(), Some(StorageError::Corrupt));
    let back = Db::init(vec![entry(1, "a", 10, None), entry(3, "b", 20, None), entry(2, "c", 30, None)]);
    assert_eq!(back.err(), Some(StorageError::Corrupt));
}

#[test]
fn a_full_store_takes_no_more() {
    let mut db = Db::init(vec![entry(i64::MAX, "last", 1, None)]).unwrap();
    assert_eq!(
        db.record("more".to_string(), 2, None, None, None, None),
        Err(StorageError::Unwritable)
    );
    assert_eq!(db.add_entry("more", None, None, None), Err(StorageError::Unwritable));
    assert_eq!(db.entries().len(), 1);
    assert_eq!(db.search_entries("").unwrap().len(), 1);
}

#[test]
fn filter_is_a_literal_case_sensitive_substring() {
    let db = Db::init(vec![
        entry(1, "git status", 1, None),
        entry(2, "Git log", 2, None),
        entry(3, "digit", 3, None),
        entry(4, "ls", 4, None),
        entry(5, "g.t", 5, None),
    ])
    .unwrap();
    let commands = |q: &str| -> Vec<String> {
        db.search_entries(q).unwrap().into_iter().map(|e| e.command).collect()
    };
    assert_eq!(commands("git"), vec!["digit", "git status"]);
    assert_eq!(commands("Git"), vec!["Git log"]);
    assert_eq!(commands("g.t"), vec!["g.t"]);
    assert_eq!(commands("git status"), vec!["git status"]);
    assert_eq!(commands("git status "), Vec::<String>::new());
    assert_eq!(commands("").len(), 5);
}

#[test]
fn filter_matches_text_beyond_ascii() {
    let db = Db::init(vec![
        entry(1, "echo gr\u{fc}\u{df}e", 1, None),
        entry(2, "echo gruss", 2, None),
    ])
    .unwrap();
    let found = db.search_entries("\u{fc}\u{df}").unwrap();
    assert_eq!(found.len(), 1);
    assert_eq!(found[0].id, 1);
}

#[test]
fn scan_is_newest_first() {
    let db = Db::init(vec![
        entry(1, "first", 300, None),
        entry(2, "second", 100, None),
        entry(3, "third", 200, None),
    ])
    .unwrap();
    let ids: Vec<i64> = db.search_entries("").unwrap().iter().map(|e| e.id).collect();
    assert_eq!(ids, vec![1, 3, 2]);
}

#[test]
fn equal_timestamps_show_the_later_insertion_first() {
    let db = Db::init(vec![
        entry(1, "a", 50, None),
        entry(2, "b", 50, None),
        entry(3, "c", 70, None),
        entry(4, "d", 50, None),
    ])
    .unwrap();
    let ids: Vec<i64> = db.search_entries("").unwrap().iter().map(|e| e.id).collect();
    assert_eq!(ids, vec![3, 4, 2, 1]);
}

#[test]
fn record_keeps_the_order_when_the_clock_runs_backwards() {
    let mut db = empty_store();
    db.record("late".to_string(), 900, None, None, None, None).unwrap();
    db.record("early".to_string(), 100, None, None, None, None).unwrap();
    db.record("middle".to_string(), 500, None, None, None, None).unwrap();
    db.record("late too".to_string(), 900, None, None, None, None).unwrap();
    let names: Vec<String> =
        db.search_entries("").unwrap().into_iter().map(|e| e.command).collect();
    assert_eq!(names, vec!["late too", "late", "middle", "early"]);
    let inserted: Vec<String> = db.entries().iter().map(|e| e.command.clone()).collect();
    assert_eq!(inserted, vec!["late", "early", "middle", "late too"]);
}

#[test]
fn scan_looks_at_the_thousand_most_recent() {
    let mut rows = Vec::new();
    for i in 1..=1001i64 {
        rows.push(entry(i, "run", i, None));
    }
    let db = Db::init(rows).unwrap();
    let found = db.search_entries("").unwrap();
    assert_eq!(found.len(), 1000);
    assert_eq!(found[0].id, 1001);
    assert_eq!(found[999].id, 2);
    let also = db.search_entries("run").unwrap();
    assert_eq!(also.len(), 1000);
}

#[test]
fn the_window_is_cut_before_the_filter() {
    let mut rows = vec![entry(1, "needle", 1, None)];
    for i in 2..=1001i64 {
        rows.push(entry(i, "hay", i, None));
    }
    let db = Db::init(rows).unwrap();
    assert_eq!(db.search_entries("needle").unwrap().len(), 0);
    assert_eq!(db.search_entries("hay").unwrap().len(), 1000);
}

#[test]
fn an_old_entry_appended_to_a_long_log_is_outside_the_window() {
    let mut rows = Vec::new();
    for i in 1..=1000i64 {
        rows.push(entry(i, "new", 1000 + i, None));
    }
    let mut db = Db::init(rows).unwrap();
    db.record("old".to_string(), 5, None, None, None, None).unwrap();
    assert_eq!(db.search_entries("old").unwrap().len(), 0);
    db.record("newest".to_string(), 5000, None, None, None, None).unwrap();
    let found = db.search_entries("").unwrap();
    assert_eq!(found[0].command, "newest");
    assert_eq!(found.len(), 1000);
}

#[test]
fn example_two_entries() {
    let mut db = empty_store();
    db.add_entry("echo test", None, Some(0), None).unwrap();
    db.add_entry("ls -la", None, Some(1), None).unwrap();

    let found = db.search_entries("echo").unwrap();
    assert_eq!(found.len(), 1);
    assert_eq!(found[0].command, "echo test");
    assert_eq!(found[0].exit_code, Some(0));

    let all = db.search_entries("").unwrap();
    assert_eq!(all.len(), 2);
    assert_eq!(all[0].command, "ls -la");
    assert_eq!(all[0].exit_code, Some(1));
    assert_eq!(all[1].command, "echo test");
}

#[test]
fn stats_three_ls_one_cd() {
    let mut db = empty_store();
    db.add_entry("ls", None, None, None).unwrap();
    db.add_entry("cd", None, None, None).unwrap();
    db.add_entry("ls", None, None, None).unwrap();
    db.add_entry("ls", None, None, None).unwrap();
    let stats = db.get_stats().unwrap();
    assert_eq!(stats, vec![("ls".to_string(), 3), ("cd".to_string(), 1)]);
}

#[test]
fn stats_ties_keep_the_order_of_first_occurrence() {
    let db = Db::init(vec![
        entry(1, "b", 1, None),
        entry(2, "a", 2, None),
        entry(3, "c", 3, None),
        entry(4, "c", 4, None),
        entry(5, "a", 5, None),
        entry(6, "b", 6, None),
        entry(7, "d", 7, None),
    ])
    .unwrap();
    let top = db.top_commands(10);
    assert_eq!(
        top,
        vec![
            ("b".to_string(), 2),
            ("a".to_string(), 2),
            ("c".to_string(), 2),
            ("d".to_string(), 1)
        ]
    );
    assert_eq!(db.top_commands(2), vec![("b".to_string(), 2), ("a".to_string(), 2)]);
    assert_eq!(db.top_commands(0), Vec::<(String, usize)>::new());
}

#[test]
fn stats_count_over_the_whole_log_and_stop_at_ten() {
    let mut rows = Vec::new();
    let mut id = 0;
    for k in 1..=12usize {
        for _ in 0..k {
            id += 1;
            rows.push(entry(id, &format!("cmd{}", k), id, None));
        }
    }
    for _ in 0..1500 {
        id += 1;
        rows.push(entry(id, "often", id, None));
    }
    let db = Db::init(rows).unwrap();
    let stats = db.get_stats().unwrap();
    assert_eq!(stats.len(), 10);
    assert_eq!(stats[0], ("often".to_string(), 1500));
    assert_eq!(stats[1], ("cmd12".to_string(), 12));
    assert_eq!(stats[9], ("cmd4".to_string(), 4));
}

#[test]
fn stats_of_an_empty_store() {
    let db = empty_store();
    assert_eq!(db.get_stats().unwrap(), Vec::<(String, usize)>::new());
}

#[test]
fn the_store_has_a_fixed_place() {
    assert_eq!(DATA_SUBDIRECTORY, "hun");
    assert_eq!(DATABASE_FILE, "history.db");
}

#[test]
fn a_store_of_the_most_recent_entries_searches_as_the_whole_log() {
    let mut rows = Vec::new();
    for i in 1..=1500i64 {
        // Timestamps that run against the order of insertion now and then.
        let timestamp = if i % 7 == 0 { 5000 - i } else { 5000 + i };
        let command = if i % 3 == 0 { "make test" } else { "make" };
        rows.push(entry(i, command, timestamp, None));
    }
    let whole = Db::init(rows.clone()).unwrap();
    let window: Vec<i64> = whole.search_entries("").unwrap().iter().map(|e| e.id).collect();
    assert_eq!(window.len(), 1000);

    let mut recent: Vec<HistoryEntry> =
        rows.into_iter().filter(|e| window.contains(&e.id)).collect();
    recent.sort_by_key(|e| e.id);
    let part = Db::init(recent).unwrap();

    for query in ["", "make", "test", "nothing"] {
        let a: Vec<i64> = whole.search_entries(query).unwrap().iter().map(|e| e.id).collect();
        let b: Vec<i64> = part.search_entries(query).unwrap().iter().map(|e| e.id).collect();
        assert_eq!(a, b, "for {:?}", query);
    }
}

#[test]
fn the_returned_identity_is_that_of_the_appended_entry() {
    let mut db = Db::init(vec![entry(-9, "a", 1, None), entry(-3, "b", 2, None)]).unwrap();
    let id = db.add_entry("c", None, None, None).unwrap();
    assert_eq!(id, -2);
    assert_eq!(db.entries().last().map(|e| e.id), Some(-2));
    let id = db.record("d".to_string(), 0, None, None, None, None).unwrap();
    assert_eq!(id, -1);
    assert_eq!(db.entries().last().map(|e| e.id), Some(-1));
}
