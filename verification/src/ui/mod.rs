//! The interactive search: the session and the loop that drives it.

pub mod model;
pub mod screen;

use vstd::prelude::*;
use crate::db::{entry_views, text_view, Db, EntryView, HistoryEntry, StorageError};
use crate::ui::model::{run_keys, step, Key, LoopView, SessionView};

verus! {

/// The state of one interactive search: the store it searches, the query
/// typed so far, the results of the last scan and the cursor on them.
pub struct SearchSession {
    db: Db,
    query: String,
    results: Vec<HistoryEntry>,
    cursor: Option<usize>,
}

/// The state of the search loop.
#[derive(Debug)]
pub enum LoopState {
    /// The loop waits for the next key.
    Running,
    /// The loop has ended, with the command that was picked, if any.
    Terminated { selection: Option<String> },
}

impl View for LoopState {
    type V = LoopView;

    open spec fn view(&self) -> LoopView {
        match self {
            LoopState::Running => LoopView::Running,
            LoopState::Terminated { selection } => LoopView::Terminated {
                selection: text_view(*selection),
            },
        }
    }
}

/// The query that a session starts with: the one given, or the empty one.
pub open spec fn initial_text(initial_query: Option<String>) -> Seq<char> {
    match initial_query {
        Some(text) => text@,
        None => Seq::empty(),
    }
}

/// A position as a mathematical integer.
pub open spec fn position_view(cursor: Option<usize>) -> Option<int> {
    match cursor {
        Some(at) => Some(at as int),
        None => None,
    }
}

/// What a scan gave, as the model reads it: the entries found, or nothing
/// where the scan failed.
pub open spec fn outcome_view(outcome: Result<Vec<HistoryEntry>, StorageError>) -> Option<
    Seq<EntryView>,
> {
    match outcome {
        Ok(found) => Some(entry_views(found@)),
        Err(_) => None,
    }
}

impl View for SearchSession {
    type V = SessionView;

    closed spec fn view(&self) -> SessionView {
        SessionView {
            store: self.db@,
            query: self.query@,
            results: entry_views(self.results@),
            cursor: position_view(self.cursor),
        }
    }
}

impl SearchSession {
    /// The store that the session holds is well formed.
    pub closed spec fn store_sound(&self) -> bool {
        self.db.wf()
    }

    /// The session is well formed: its store is, and the cursor is none
    /// exactly when there are no results, and otherwise the position of a
    /// result.
    pub open spec fn wf(&self) -> bool {
        &&& self.store_sound()
        &&& self@.cursor_valid()
    }

    /// Starts a session over `db` with the query `initial_query`, or with
    /// the empty query, and scans at once.
    pub fn new(db: Db, initial_query: Option<String>) -> (session: SearchSession)
        requires
            db.wf(),
        ensures
            session.wf(),
            session@ == SessionView::start(db@, initial_text(initial_query)),
    {
        let query = match initial_query {
            Some(text) => text,
            None => String::new(),
        };
        let mut session = SearchSession { db, query, results: Vec::new(), cursor: None };
        session.refresh_results();
        session
    }

    /// Takes what a scan gave: its entries become the results and the cursor
    /// goes to the first of them; a failed scan leaves no results and no
    /// cursor. The query stays as it is.
    pub fn apply_scan(&mut self, outcome: Result<Vec<HistoryEntry>, StorageError>)
        requires
            old(self).store_sound(),
        ensures
            final(self).wf(),
            final(self)@ == old(self)@.listed(outcome_view(outcome)),
    {
        match outcome {
            Ok(found) => {
                self.cursor = if found.len() > 0 {
                    Some(0)
                } else {
                    None
                };
                self.results = found;
            },
            Err(_) => {
                self.cursor = None;
                self.results = Vec::new();
                assert(entry_views(self.results@) =~= Seq::empty());
            },
        }
    }

    /// Scans the store for the query as it stands and takes what comes back.
    pub fn refresh_results(&mut self)
        requires
            old(self).store_sound(),
        ensures
            final(self).wf(),
            final(self)@ == old(self)@.with_query(old(self)@.query),
    {
        let outcome = self.db.search_entries(self.query.as_str());
        self.apply_scan(outcome);
    }

    /// Replaces the query by `text` and scans for it.
    pub fn set_query(&mut self, text: &str)
        requires
            old(self).store_sound(),
        ensures
            final(self).wf(),
            final(self)@ == old(self)@.with_query(text@),
    {
        self.query = text.to_owned();
        self.refresh_results();
    }

    /// Types `c` at the end of the query and scans for the new query.
    pub fn append_char(&mut self, c: char)
        requires
            old(self).store_sound(),
        ensures
            final(self).wf(),
            final(self)@ == old(self)@.typed(c),
    {
        self.query.push(c);
        self.refresh_results();
    }

    /// Erases the last character of the query, if there is one, and scans
    /// for the query that is left.
    pub fn backspace(&mut self)
        requires
            old(self).store_sound(),
        ensures
            final(self).wf(),
            final(self)@ == old(self)@.erased(),
    {
        let _ = self.query.pop();
        self.refresh_results();
    }

    /// Moves the cursor down by one result, from the last to the first.
    /// Without results nothing changes.
    pub fn move_next(&mut self)
        requires
            old(self).wf(),
        ensures
            final(self).wf(),
            final(self)@ == old(self)@.moved_next(),
    {
        let n = self.results.len();
        if n > 0 {
            self.cursor = match self.cursor {
                Some(at) => if at >= n - 1 {
                    Some(0)
                } else {
                    Some(at + 1)
                },
                None => Some(0),
            };
        }
    }

    /// Moves the cursor up by one result, from the first to the last.
    /// Without results nothing changes.
    pub fn move_previous(&mut self)
        requires
            old(self).wf(),
        ensures
            final(self).wf(),
            final(self)@ == old(self)@.moved_previous(),
    {
        let n = self.results.len();
        if n > 0 {
            self.cursor = match self.cursor {
                Some(at) => if at == 0 {
                    Some(n - 1)
                } else {
                    Some(at - 1)
                },
                None => Some(0),
            };
        }
    }

    /// The query as it stands.
    pub fn query(&self) -> (text: &str)
        ensures
            text@ == self@.query,
    {
        self.query.as_str()
    }

    /// The results of the last scan, most recent first.
    pub fn results(&self) -> (found: &Vec<HistoryEntry>)
        ensures
            entry_views(found@) == self@.results,
    {
        &self.results
    }

    /// The position of the highlighted result, or none.
    pub fn cursor(&self) -> (at: Option<usize>)
        ensures
            position_view(at) == self@.cursor,
    {
        self.cursor
    }

    /// The store that the session searches.
    pub fn store(&self) -> (db: &Db)
        ensures
            db@ == self@.store,
            self.store_sound() ==> db.wf(),
    {
        &self.db
    }

    /// The result under the cursor, if there is one.
    pub fn selected(&self) -> (entry: Option<&HistoryEntry>)
        ensures
            match entry {
                Some(e) => self@.selected() == Some(e@),
                None => self@.selected() is None,
            },
    {
        match self.cursor {
            Some(at) => if at < self.results.len() {
                Some(&self.results[at])
            } else {
                None
            },
            None => None,
        }
    }
}

/// Handles one key of a running loop: a character is typed into the query,
/// backspace erases, the arrows move the cursor, enter ends the loop with the
/// command under the cursor, escape ends it with nothing, and any other key
/// is ignored.
pub fn handle_key(session: &mut SearchSession, key: Key) -> (state: LoopState)
    requires
        old(session).wf(),
    ensures
        final(session).wf(),
        (final(session)@, state@) == step(old(session)@, key),
{
    match key {
        Key::Char(c) => {
            session.append_char(c);
            LoopState::Running
        },
        Key::Backspace => {
            session.backspace();
            LoopState::Running
        },
        Key::Down => {
            session.move_next();
            LoopState::Running
        },
        Key::Up => {
            session.move_previous();
            LoopState::Running
        },
        Key::Enter => {
            let selection = match session.selected() {
                Some(e) => Some(e.command.clone()),
                None => None,
            };
            LoopState::Terminated { selection }
        },
        Key::Esc => LoopState::Terminated { selection: None },
        Key::Other => LoopState::Running,
    }
}

/// Runs the search loop over the keys given: starts a session over `db`
/// with `initial_query`, then handles the keys in turn until one ends the
/// loop. Returns how the loop stands after the last key that was handled.
pub fn run(db: Db, initial_query: Option<String>, keys: &Vec<Key>) -> (state: LoopState)
    requires
        db.wf(),
    ensures
        state@ == run_keys(
            SessionView::start(db@, initial_text(initial_query)),
            keys@,
        ).1,
{
    let ghost wanted = run_keys(SessionView::start(db@, initial_text(initial_query)), keys@);
    let mut session = SearchSession::new(db, initial_query);
    let mut i: usize = 0;
    assert(keys@.skip(0) =~= keys@);
    while i < keys.len()
        invariant
            i <= keys.len(),
            session.wf(),
            wanted == run_keys(SessionView::start(db@, initial_text(initial_query)), keys@),
            wanted == run_keys(session@, keys@.skip(i as int)),
        decreases keys.len() - i,
    {
        let ghost rest = keys@.skip(i as int);
        let ghost before = session@;
        assert(rest.first() == keys@[i as int]);
        assert(rest.drop_first() =~= keys@.skip(i + 1));
        let state = handle_key(&mut session, keys[i]);
        assert(run_keys(before, rest) == if state@ is Running {
            run_keys(session@, rest.drop_first())
        } else {
            (session@, state@)
        });
        match state {
            LoopState::Running => {},
            LoopState::Terminated { selection } => {
                assert(wanted.1 == state@);
                return LoopState::Terminated { selection };
            },
        }
        i = i + 1;
    }
    assert(keys@.skip(i as int).len() == 0);
    LoopState::Running
}

} // verus!
