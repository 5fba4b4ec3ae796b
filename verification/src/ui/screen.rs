//! What the search loop puts on the screen, as plain values.

use vstd::prelude::*;
use vstd::string::StringExecFns;
use crate::clock::{formatted_timestamp, timestamp_text};
use crate::db::{EntryView, HistoryEntry};
use crate::ui::model::SessionView;
use crate::ui::{position_view, SearchSession};

verus! {

/// The title of the region that shows the query.
pub const INPUT_TITLE: &'static str = "Search";

/// The title of the region that lists the results.
pub const LIST_TITLE: &'static str = "History";

/// What is written in front of the highlighted line.
pub const HIGHLIGHT_SYMBOL: &'static str = ">> ";

/// The pattern under which a time is written: year, month and day joined by
/// hyphens, a space, then hour, minute and second joined by colons.
pub const TIME_PATTERN: &'static str = "%Y-%m-%d %H:%M:%S";

/// The height of the region that shows the query, borders included.
pub const INPUT_HEIGHT: u16 = 3;

/// One line of the list of results.
#[derive(Debug)]
pub struct Line {
    /// The marker of success or failure, with the space behind it.
    pub mark: String,
    /// The time of the entry in brackets, with the space behind it.
    pub stamp: String,
    /// The command.
    pub command: String,
}

/// What a line is to the contracts.
pub struct LineView {
    pub mark: Seq<char>,
    pub stamp: Seq<char>,
    pub command: Seq<char>,
}

impl View for Line {
    type V = LineView;

    open spec fn view(&self) -> LineView {
        LineView { mark: self.mark@, stamp: self.stamp@, command: self.command@ }
    }
}

/// What is drawn: the query in the input region, one line for each result,
/// and the position of the line to highlight.
#[derive(Debug)]
pub struct Screen {
    pub input: String,
    pub lines: Vec<Line>,
    pub highlighted: Option<usize>,
}

/// What a screen is to the contracts.
pub struct ScreenView {
    pub input: Seq<char>,
    pub lines: Seq<LineView>,
    pub highlighted: Option<int>,
}

/// The views of a sequence of lines, in the same order.
pub open spec fn line_views(lines: Seq<Line>) -> Seq<LineView> {
    lines.map_values(|l: Line| l@)
}

impl View for Screen {
    type V = ScreenView;

    open spec fn view(&self) -> ScreenView {
        ScreenView {
            input: self.input@,
            lines: line_views(self.lines@),
            highlighted: position_view(self.highlighted),
        }
    }
}

/// The entry counts as a success: its exit status is 0, or it has none.
pub open spec fn succeeded(e: EntryView) -> bool {
    e.exit_code is None || e.exit_code == Some(0int)
}

/// The marker in front of an entry.
pub open spec fn mark_of(e: EntryView) -> Seq<char> {
    if succeeded(e) {
        "\u{2705} "@
    } else {
        "\u{274c} "@
    }
}

/// A written time as it is shown: in square brackets, with a space behind.
pub open spec fn framed(time: Seq<char>) -> Seq<char> {
    "["@ + time + "] "@
}

/// A time as it is written: the date and the time of day, or those of the
/// epoch for a number of seconds that is no date.
pub open spec fn written_time(seconds: i64) -> Seq<char> {
    match formatted_timestamp(seconds, TIME_PATTERN@) {
        Some(text) => text,
        None => "1970-01-01 00:00:00"@,
    }
}

/// The time of an entry as it is shown.
pub open spec fn stamp_of(e: EntryView) -> Seq<char> {
    framed(written_time(e.timestamp as i64))
}

/// The line for an entry.
pub open spec fn line_of(e: EntryView) -> LineView {
    LineView { mark: mark_of(e), stamp: stamp_of(e), command: e.command }
}

/// The screen for a session.
pub open spec fn screen_of(s: SessionView) -> ScreenView {
    ScreenView {
        input: s.query,
        lines: s.results.map_values(|e: EntryView| line_of(e)),
        highlighted: s.cursor,
    }
}

/// Makes the line for one entry from the entry and its time as written out.
pub fn line_with_time(entry: &HistoryEntry, time: &str) -> (line: Line)
    ensures
        line@ == (LineView { mark: mark_of(entry@), stamp: framed(time@), command: entry@.command }),
{
    let ok = match entry.exit_code {
        Some(code) => code == 0,
        None => true,
    };
    let mark = if ok {
        "\u{2705} ".to_owned()
    } else {
        "\u{274c} ".to_owned()
    };
    let mut stamp = "[".to_owned();
    stamp.append(time);
    stamp.append("] ");
    Line { mark, stamp, command: entry.command.clone() }
}

/// Makes the line for one entry.
pub fn render_line(entry: &HistoryEntry) -> (line: Line)
    ensures
        line@ == line_of(entry@),
{
    let time = match timestamp_text(entry.timestamp, TIME_PATTERN) {
        Some(text) => text,
        None => "1970-01-01 00:00:00".to_owned(),
    };
    line_with_time(entry, time.as_str())
}

/// Makes the screen for the session as it stands.
pub fn render(session: &SearchSession) -> (screen: Screen)
    ensures
        screen@ == screen_of(session@),
{
    let results = session.results();
    let mut lines: Vec<Line> = Vec::new();
    let mut i: usize = 0;
    while i < results.len()
        invariant
            i <= results.len(),
            lines.len() == i,
            forall|k: int| 0 <= k < i ==> (#[trigger] lines[k])@ == line_of(results[k]@),
        decreases results.len() - i,
    {
        lines.push(render_line(&results[i]));
        i = i + 1;
    }
    let screen = Screen {
        input: session.query().to_owned(),
        lines,
        highlighted: session.cursor(),
    };
    assert(screen@.lines =~= screen_of(session@).lines);
    screen
}

} // verus!
