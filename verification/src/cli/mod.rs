//! The command line: what was asked for, and what is to be done about it.

use vstd::prelude::*;
use vstd::string::StringExecFns;
use crate::db::stats::{top_commands, CountView};
use crate::db::order::increasing_ids;
use crate::db::{
    code_view, count_views, entry_views, has_room, next_id, str_view, text_view, Db, EntryView,
    HistoryEntry, StorageError,
};
use crate::text::{decimal, decimal_text};
use crate::ui::model::SessionView;
use crate::ui::{initial_text, SearchSession};

verus! {

/// A parsed command line.
#[derive(Debug)]
pub struct Cli {
    pub command: Commands,
}

/// The subcommands.
#[derive(Debug)]
pub enum Commands {
    /// Add a new entry to the history.
    Add {
        /// The command that was executed.
        cmd: String,
        /// The current working directory.
        cwd: Option<String>,
        /// The exit code of the command.
        exit_code: Option<i32>,
        /// The session ID.
        session_id: Option<String>,
    },
    /// Search the history interactively.
    Search {
        /// Optional initial query.
        query: Option<String>,
    },
    /// Show the most frequent commands.
    Stats,
}

/// What is left to do once a subcommand has been carried out on the store.
pub enum Outcome {
    /// The entry that was appended and is to be made durable.
    Added(HistoryEntry),
    /// The session that the search loop is to drive.
    Search(SearchSession),
    /// The lines that are to be printed.
    Stats(Vec<String>),
}

/// The line of the statistics for the command at place `rank`: the rank, a
/// full stop, the command, and the count in round brackets.
pub open spec fn stats_line(rank: nat, c: CountView) -> Seq<char> {
    decimal(rank) + ". "@ + c.command + " ("@ + decimal(c.count as nat) + ")"@
}

/// What the statistics print: a header line, then one line for each command,
/// the ranks counted from 1.
pub open spec fn stats_report(top: Seq<CountView>) -> Seq<Seq<char>> {
    Seq::new(
        top.len() + 1,
        |i: int|
            if i == 0 {
                "\u{1f525} Top 10 Commands:"@
            } else {
                stats_line(i as nat, top[i - 1])
            },
    )
}

/// The characters of each of a sequence of texts.
pub open spec fn texts_view(lines: Seq<String>) -> Seq<Seq<char>> {
    lines.map_values(|l: String| l@)
}

/// Writes the statistics out, line by line.
pub fn report_stats(stats: &Vec<(String, usize)>) -> (lines: Vec<String>)
    ensures
        texts_view(lines@) == stats_report(count_views(stats@)),
{
    let ghost top = count_views(stats@);
    let mut lines: Vec<String> = Vec::new();
    lines.push("\u{1f525} Top 10 Commands:".to_owned());
    let mut i: usize = 0;
    while i < stats.len()
        invariant
            i <= stats.len(),
            top == count_views(stats@),
            lines.len() == i + 1,
            forall|k: int| 0 <= k <= i ==> (#[trigger] lines[k])@ == stats_report(top)[k],
        decreases stats.len() - i,
    {
        let mut line = decimal_text(i + 1);
        line.append(". ");
        line.append(stats[i].0.as_str());
        line.append(" (");
        let count = decimal_text(stats[i].1);
        line.append(count.as_str());
        line.append(")");
        assert(line@ == stats_line((i + 1) as nat, top[i as int]));
        lines.push(line);
        i = i + 1;
    }
    assert(texts_view(lines@) =~= stats_report(top));
    lines
}

/// The log that a subcommand works on, given what reading the backing store
/// gave: the rows that were read, where they are a log of this store.
pub open spec fn loaded_log(loaded: Result<Vec<HistoryEntry>, StorageError>) -> Option<
    Seq<EntryView>,
> {
    match loaded {
        Ok(rows) => if increasing_ids(entry_views(rows@)) {
            Some(entry_views(rows@))
        } else {
            None
        },
        Err(_) => None,
    }
}

/// The error that ends a subcommand when the log could not be had: the one
/// that reading gave, or `Corrupt` for rows that are no log of this store.
pub open spec fn load_error(loaded: Result<Vec<HistoryEntry>, StorageError>) -> StorageError {
    match loaded {
        Ok(_) => StorageError::Corrupt,
        Err(e) => e,
    }
}

impl Cli {
    /// Carries the subcommand out on the log that was read from the backing
    /// store, `loaded`, which holds the rows in the order of insertion or the
    /// error that reading them gave.
    ///
    /// `Add` appends an entry for the command and hands it back to be made
    /// durable. `Stats` writes out the ten most frequent commands. Both end
    /// with the error where the log could not be had, and `Add` also where
    /// the log can take no more. `Search` starts a session with the query
    /// given; where the log could not be had the session lists nothing, and
    /// the search goes on.
    pub fn dispatch(self, loaded: Result<Vec<HistoryEntry>, StorageError>) -> (done: Result<
        Outcome,
        StorageError,
    >)
        ensures
            match self.command {
                Commands::Add { cmd, cwd, exit_code, session_id } => match loaded_log(loaded) {
                    Some(log) => if has_room(log) {
                        &&& done matches Ok(Outcome::Added(entry))
                        &&& entry@.id == next_id(log)
                        &&& entry@.command == cmd@
                        &&& entry@.cwd == text_view(cwd)
                        &&& entry@.exit_code == code_view(exit_code)
                        &&& entry@.session_id == text_view(session_id)
                    } else {
                        done matches Err(e) && e == StorageError::Unwritable
                    },
                    None => done matches Err(e) && e == load_error(loaded),
                },
                Commands::Search { query } => {
                    &&& done matches Ok(Outcome::Search(session))
                    &&& session.wf()
                    &&& session@ == SessionView::start(
                        match loaded_log(loaded) {
                            Some(log) => log,
                            None => Seq::empty(),
                        },
                        initial_text(query),
                    )
                },
                Commands::Stats => match loaded_log(loaded) {
                    Some(log) => {
                        &&& done matches Ok(Outcome::Stats(lines))
                        &&& texts_view(lines@) == stats_report(top_commands(log, 10))
                    },
                    None => done matches Err(e) && e == load_error(loaded),
                },
            },
    {
        let opened = match loaded {
            Ok(rows) => Db::init(rows),
            Err(e) => Err(e),
        };
        match self.command {
            Commands::Add { cmd, cwd, exit_code, session_id } => {
                let mut db = match opened {
                    Ok(db) => db,
                    Err(e) => {
                        return Err(e);
                    },
                };
                let given = db.add_entry(
                    cmd.as_str(),
                    borrowed(&cwd),
                    exit_code,
                    borrowed(&session_id),
                );
                match given {
                    Ok(_) => {
                        let all = db.entries();
                        let entry = all[all.len() - 1].clone();
                        Ok(Outcome::Added(entry))
                    },
                    Err(e) => Err(e),
                }
            },
            Commands::Search { query } => {
                let db = match opened {
                    Ok(db) => db,
                    Err(_) => Db::empty(),
                };
                Ok(Outcome::Search(SearchSession::new(db, query)))
            },
            Commands::Stats => {
                let db = match opened {
                    Ok(db) => db,
                    Err(e) => {
                        return Err(e);
                    },
                };
                let top = db.top_commands(10);
                Ok(Outcome::Stats(report_stats(&top)))
            },
        }
    }
}

fn borrowed(t: &Option<String>) -> (b: Option<&str>)
    ensures
        str_view(b) == text_view(*t),
{
    match t {
        Some(s) => Some(s.as_str()),
        None => None,
    }
}

} // verus!
