//! The search session as a mathematical state machine.

use vstd::prelude::*;
use crate::db::EntryView;
use crate::db::order::scan;

verus! {

/// What a search session is to the contracts.
pub struct SessionView {
    /// The log of the store that the session searches.
    pub store: Seq<EntryView>,
    /// The text typed so far.
    pub query: Seq<char>,
    /// What the last scan gave, most recent first.
    pub results: Seq<EntryView>,
    /// The position of the highlighted result, or none.
    pub cursor: Option<int>,
}

/// A key as the search loop tells them apart.
#[derive(Debug, Clone, Copy, PartialEq, Eq, Structural)]
pub enum Key {
    /// A character key.
    Char(char),
    /// The backspace key.
    Backspace,
    /// The down arrow.
    Down,
    /// The up arrow.
    Up,
    /// The enter key.
    Enter,
    /// The escape key.
    Esc,
    /// Any other key.
    Other,
}

/// The state of the search loop, as the contracts see it.
pub enum LoopView {
    /// The loop waits for the next key.
    Running,
    /// The loop has ended, with the command that was picked, if any.
    Terminated { selection: Option<Seq<char>> },
}

/// One change to a session.
pub enum Action {
    /// Replace the query.
    SetQuery(Seq<char>),
    /// Type one character.
    AppendChar(char),
    /// Erase the last character.
    Backspace,
    /// Move the cursor down by one.
    MoveNext,
    /// Move the cursor up by one.
    MovePrevious,
}

/// The cursor that a fresh list of results gets: the first result, or none
/// where there is no result.
pub open spec fn first_of(results: Seq<EntryView>) -> Option<int> {
    if results.len() > 0 {
        Some(0)
    } else {
        None
    }
}

impl SessionView {
    /// The cursor is none exactly when there are no results, and otherwise
    /// the position of a result.
    pub open spec fn cursor_valid(self) -> bool {
        match self.cursor {
            None => self.results.len() == 0,
            Some(at) => 0 <= at < self.results.len(),
        }
    }

    /// The session over `store` right after it is made with the query
    /// `text`.
    pub open spec fn start(store: Seq<EntryView>, text: Seq<char>) -> SessionView {
        SessionView { store, query: text, results: scan(store, text), cursor: first_of(scan(store, text)) }
    }

    /// The session after a refresh came back: with what a scan found, or
    /// with nothing where the scan failed; the cursor is on the first result.
    pub open spec fn listed(self, found: Option<Seq<EntryView>>) -> SessionView {
        let results = match found {
            Some(entries) => entries,
            None => Seq::empty(),
        };
        SessionView { results, cursor: first_of(results), ..self }
    }

    /// The session after its query is replaced by `text`.
    pub open spec fn with_query(self, text: Seq<char>) -> SessionView {
        SessionView { query: text, ..self }.listed(Some(scan(self.store, text)))
    }

    /// The session after `c` is typed.
    pub open spec fn typed(self, c: char) -> SessionView {
        self.with_query(self.query.push(c))
    }

    /// The session after the last character is erased; an empty query stays
    /// empty.
    pub open spec fn erased(self) -> SessionView {
        self.with_query(
            if self.query.len() > 0 {
                self.query.drop_last()
            } else {
                self.query
            },
        )
    }

    /// The session after the cursor moved down by one, from the last result
    /// to the first.
    pub open spec fn moved_next(self) -> SessionView {
        if self.results.len() == 0 {
            self
        } else {
            let to = match self.cursor {
                Some(at) => if at >= self.results.len() - 1 {
                    0
                } else {
                    at + 1
                },
                None => 0,
            };
            SessionView { cursor: Some(to), ..self }
        }
    }

    /// The session after the cursor moved up by one, from the first result
    /// to the last.
    pub open spec fn moved_previous(self) -> SessionView {
        if self.results.len() == 0 {
            self
        } else {
            let to = match self.cursor {
                Some(at) => if at == 0 {
                    self.results.len() - 1
                } else {
                    at - 1
                },
                None => 0,
            };
            SessionView { cursor: Some(to), ..self }
        }
    }

    /// The result under the cursor, if there is one.
    pub open spec fn selected(self) -> Option<EntryView> {
        match self.cursor {
            Some(at) if 0 <= at < self.results.len() => Some(self.results[at]),
            _ => None,
        }
    }

    /// The session after one change.
    pub open spec fn apply(self, action: Action) -> SessionView {
        match action {
            Action::SetQuery(text) => self.with_query(text),
            Action::AppendChar(c) => self.typed(c),
            Action::Backspace => self.erased(),
            Action::MoveNext => self.moved_next(),
            Action::MovePrevious => self.moved_previous(),
        }
    }

    /// The session after a sequence of changes, the first one first.
    pub open spec fn apply_all(self, actions: Seq<Action>) -> SessionView
        decreases actions.len(),
    {
        if actions.len() == 0 {
            self
        } else {
            self.apply_all(actions.drop_last()).apply(actions.last())
        }
    }
}

/// What one key does to a running loop: the session after it, and whether
/// the loop goes on.
pub open spec fn step(s: SessionView, key: Key) -> (SessionView, LoopView) {
    match key {
        Key::Char(c) => (s.typed(c), LoopView::Running),
        Key::Backspace => (s.erased(), LoopView::Running),
        Key::Down => (s.moved_next(), LoopView::Running),
        Key::Up => (s.moved_previous(), LoopView::Running),
        Key::Enter => (
            s,
            LoopView::Terminated {
                selection: match s.selected() {
                    Some(e) => Some(e.command),
                    None => None,
                },
            },
        ),
        Key::Esc => (s, LoopView::Terminated { selection: None }),
        Key::Other => (s, LoopView::Running),
    }
}

/// What a sequence of keys does to a running loop: each key is handled in
/// turn until one ends the loop; the keys behind that one are not looked at.
pub open spec fn run_keys(s: SessionView, keys: Seq<Key>) -> (SessionView, LoopView)
    decreases keys.len(),
{
    if keys.len() == 0 {
        (s, LoopView::Running)
    } else {
        let (next, state) = step(s, keys.first());
        if state is Running {
            run_keys(next, keys.drop_first())
        } else {
            (next, state)
        }
    }
}

/// The loop ends on enter and on escape, and on no other key; escape ends
/// it with nothing, and enter with the command under the cursor.
pub proof fn lemma_loop_ends(s: SessionView, key: Key)
    ensures
        step(s, key).1 is Terminated <==> key == Key::Enter || key == Key::Esc,
        key == Key::Esc ==> step(s, key).1 == (LoopView::Terminated { selection: None }),
        key == Key::Enter && s.selected() is Some ==> step(s, key).1 == (LoopView::Terminated {
            selection: Some(s.selected()->0.command),
        }),
        key == Key::Enter && s.selected() is None ==> step(s, key).1 == (LoopView::Terminated {
            selection: None,
        }),
        step(s, key).1 is Terminated ==> step(s, key).0 == s,
{
}

/// Cursor invariant: every change leaves the cursor on a result, or on none
/// where there are no results.
pub proof fn lemma_apply_keeps_cursor(s: SessionView, action: Action)
    requires
        s.cursor_valid(),
    ensures
        s.apply(action).cursor_valid(),
{
}

/// Cursor invariant: after any sequence of changes the cursor is none
/// exactly when there are no results, and otherwise the position of a
/// result.
pub proof fn lemma_cursor_invariant(s: SessionView, actions: Seq<Action>)
    requires
        s.cursor_valid(),
    ensures
        s.apply_all(actions).cursor_valid(),
    decreases actions.len(),
{
    if actions.len() > 0 {
        lemma_cursor_invariant(s, actions.drop_last());
        lemma_apply_keeps_cursor(s.apply_all(actions.drop_last()), actions.last());
    }
}

/// Cursor invariant along the loop: whatever keys are handled, the session
/// that is left has its cursor on a result, or on none where there are no
/// results.
pub proof fn lemma_run_keeps_cursor(s: SessionView, keys: Seq<Key>)
    requires
        s.cursor_valid(),
    ensures
        run_keys(s, keys).0.cursor_valid(),
    decreases keys.len(),
{
    if keys.len() > 0 {
        let (next, state) = step(s, keys.first());
        if state is Running {
            lemma_run_keeps_cursor(next, keys.drop_first());
        }
    }
}

/// Wraparound: from the last of `n` results one move down reaches the
/// first, and from the first one move up reaches the last.
pub proof fn lemma_wraparound(s: SessionView)
    requires
        s.results.len() > 0,
    ensures
        s.cursor == Some(s.results.len() - 1) ==> s.moved_next().cursor == Some(0int),
        s.cursor == Some(0int) ==> s.moved_previous().cursor == Some(s.results.len() - 1),
{
}

/// Without results a move changes nothing.
pub proof fn lemma_move_on_empty(s: SessionView)
    requires
        s.results.len() == 0,
    ensures
        s.moved_next() == s,
        s.moved_previous() == s,
{
}

/// A move down and a move up undo each other.
pub proof fn lemma_moves_undo(s: SessionView)
    requires
        s.cursor_valid(),
    ensures
        s.moved_next().moved_previous() == s,
        s.moved_previous().moved_next() == s,
{
}

} // verus!
