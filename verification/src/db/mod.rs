//! The store: an append-only log of history entries.

pub mod order;
pub mod stats;

use vstd::prelude::*;
use crate::clock::now_seconds;
use crate::db::order::{
    increasing_ids, lemma_newest_first_len, lemma_rank_is, matching, newest_first, precedes, scan,
    window, SCAN_CAP,
};
use crate::db::stats::{count_commands, paired, picked, select_top, top_commands, CountView};
use crate::host::local_hostname;
use crate::text::{chars_of, contains_chars};

verus! {

/// The name of the store's directory under the user's data directory.
pub const DATA_SUBDIRECTORY: &'static str = "hun";

/// The name of the store's file in that directory.
pub const DATABASE_FILE: &'static str = "history.db";

/// One recorded command invocation.
#[derive(Debug)]
pub struct HistoryEntry {
    /// Sequence number given by the store on insert.
    pub id: i64,
    /// The command line as it was run.
    pub command: String,
    /// Seconds since the Unix epoch at which the entry was recorded.
    pub timestamp: i64,
    /// Working directory at the time, if known.
    pub cwd: Option<String>,
    /// Exit status of the command, if known.
    pub exit_code: Option<i32>,
    /// Token that groups the entries of one shell session, if known.
    pub session_id: Option<String>,
    /// Name of the machine the entry was recorded on, if it could be resolved.
    pub hostname: Option<String>,
}

/// What an entry is to the contracts: its fields as mathematical values.
pub struct EntryView {
    pub id: int,
    pub command: Seq<char>,
    pub timestamp: int,
    pub cwd: Option<Seq<char>>,
    pub exit_code: Option<int>,
    pub session_id: Option<Seq<char>>,
    pub hostname: Option<Seq<char>>,
}

/// The characters of an optional text.
pub open spec fn text_view(t: Option<String>) -> Option<Seq<char>> {
    match t {
        Some(s) => Some(s@),
        None => None,
    }
}

/// An optional exit status as a mathematical integer.
pub open spec fn code_view(c: Option<i32>) -> Option<int> {
    match c {
        Some(v) => Some(v as int),
        None => None,
    }
}

impl View for HistoryEntry {
    type V = EntryView;

    open spec fn view(&self) -> EntryView {
        EntryView {
            id: self.id as int,
            command: self.command@,
            timestamp: self.timestamp as int,
            cwd: text_view(self.cwd),
            exit_code: code_view(self.exit_code),
            session_id: text_view(self.session_id),
            hostname: text_view(self.hostname),
        }
    }
}

/// The views of the counts that the statistics give, in the same order.
pub open spec fn count_views(counts: Seq<(String, usize)>) -> Seq<CountView> {
    counts.map_values(|c: (String, usize)| CountView { command: c.0@, count: c.1 as int })
}

/// The views of a sequence of entries, in the same order.
pub open spec fn entry_views(entries: Seq<HistoryEntry>) -> Seq<EntryView> {
    entries.map_values(|e: HistoryEntry| e@)
}

impl Clone for HistoryEntry {
    fn clone(&self) -> (copy: HistoryEntry)
        ensures
            copy@ == self@,
    {
        HistoryEntry {
            id: self.id,
            command: self.command.clone(),
            timestamp: self.timestamp,
            cwd: clone_text(&self.cwd),
            exit_code: self.exit_code,
            session_id: clone_text(&self.session_id),
            hostname: clone_text(&self.hostname),
        }
    }
}

fn clone_text(t: &Option<String>) -> (copy: Option<String>)
    ensures
        text_view(copy) == text_view(*t),
{
    match t {
        Some(s) => Some(s.clone()),
        None => None,
    }
}

/// Why the store could not do what was asked.
#[derive(Debug, Clone, Copy, PartialEq, Eq, Structural)]
pub enum StorageError {
    /// The backing store could not be reached or read.
    Unreachable,
    /// The backing store could not take another entry.
    Unwritable,
    /// What the backing store holds is not a log of this store.
    Corrupt,
}

impl StorageError {
    /// What the error says, as text.
    pub open spec fn text(self) -> Seq<char> {
        match self {
            StorageError::Unreachable => "the history store cannot be reached"@,
            StorageError::Unwritable => "the history store cannot take another entry"@,
            StorageError::Corrupt => "the history store does not hold a history"@,
        }
    }

    /// What the error says, for the user to read.
    pub fn message(&self) -> (said: String)
        ensures
            said@ == self.text(),
    {
        match self {
            StorageError::Unreachable => "the history store cannot be reached".to_owned(),
            StorageError::Unwritable => "the history store cannot take another entry".to_owned(),
            StorageError::Corrupt => "the history store does not hold a history".to_owned(),
        }
    }
}

/// The identity that the next entry appended to `log` gets: one more than
/// the last one, and 1 in an empty log.
pub open spec fn next_id(log: Seq<EntryView>) -> int {
    if log.len() == 0 {
        1
    } else {
        log.last().id + 1
    }
}

/// The log can take another entry: the next identity is one that an entry
/// can hold.
pub open spec fn has_room(log: Seq<EntryView>) -> bool {
    next_id(log) <= i64::MAX
}

/// The characters of an optional borrowed text.
pub open spec fn str_view(t: Option<&str>) -> Option<Seq<char>> {
    match t {
        Some(s) => Some(s@),
        None => None,
    }
}

/// `order` lists the positions of `log` from the entry shown last to the
/// entry shown first.
spec fn lists_in_order(order: Seq<usize>, log: Seq<EntryView>) -> bool {
    &&& order.len() == log.len()
    &&& forall|k: int| 0 <= k < log.len() ==> 0 <= #[trigger] order[k] < log.len()
    &&& forall|k: int|
        0 <= k < log.len() ==> log[order[log.len() - 1 - k] as int] == #[trigger] newest_first(
            log,
        )[k]
}

/// The append-only log of history entries.
pub struct Db {
    /// The entries in the order in which they were appended.
    entries: Vec<HistoryEntry>,
    /// The positions in `entries`, from the entry shown last to the entry
    /// shown first.
    order: Vec<usize>,
}

impl View for Db {
    type V = Seq<EntryView>;

    /// The log: every entry, in the order of insertion.
    closed spec fn view(&self) -> Seq<EntryView> {
        entry_views(self.entries@)
    }
}

fn shown_before(a: &HistoryEntry, b: &HistoryEntry) -> (before: bool)
    ensures
        before == precedes(a@, b@),
{
    a.timestamp > b.timestamp || (a.timestamp == b.timestamp && a.id > b.id)
}

/// Puts the position `old(order).len()` into `order`, which lists the
/// entries before it.
fn settle(entries: &Vec<HistoryEntry>, order: &mut Vec<usize>)
    requires
        old(order).len() < entries.len(),
        lists_in_order(old(order)@, entry_views(entries@).take(old(order).len() as int)),
    ensures
        lists_in_order(final(order)@, entry_views(entries@).take(old(order).len() + 1)),
{
    let n = order.len();
    let e = &entries[n];
    let ghost all = entry_views(entries@);
    let ghost log = all.take(n as int);
    let ghost shown = newest_first(log);
    proof {
        lemma_newest_first_len(log);
    }
    let mut r: usize = 0;
    while r < n && shown_before(&entries[order[n - 1 - r]], e)
        invariant
            n == order.len(),
            n < entries.len(),
            r <= n,
            all == entry_views(entries@),
            log == all.take(n as int),
            shown == newest_first(log),
            shown.len() == n,
            e@ == all[n as int],
            lists_in_order(order@, log),
            forall|k: int| 0 <= k < r ==> precedes(#[trigger] shown[k], e@),
        decreases n - r,
    {
        assert(log[order@[n - 1 - r] as int] == shown[r as int]);
        r = r + 1;
    }
    proof {
        if r < n {
            assert(log[order@[n - 1 - r] as int] == shown[r as int]);
        }
        lemma_rank_is(shown, e@, r as int);
    }
    let ghost before = order@;
    order.insert(n - r, n);
    proof {
        let grown = all.take(n + 1);
        assert(grown.drop_last() =~= log);
        assert(grown.last() == e@);
        assert(newest_first(grown) == shown.insert(r as int, e@));
        lemma_newest_first_len(grown);
        let after = order@;
        assert forall|k: int| 0 <= k < grown.len() implies 0 <= #[trigger] after[k] < grown.len() by {
            if k < n - r {
                assert(after[k] == before[k]);
            } else if k > n - r {
                assert(after[k] == before[k - 1]);
            }
        }
        assert forall|k: int| 0 <= k < grown.len() implies grown[after[grown.len() - 1 - k] as int]
            == #[trigger] newest_first(grown)[k] by {
            if k < r {
                assert(after[n - k] == before[n - k - 1]);
                assert(log[before[n - 1 - k] as int] == shown[k]);
            } else if k > r {
                assert(after[n - k] == before[n - k]);
                assert(log[before[n - 1 - (k - 1)] as int] == shown[k - 1]);
            }
        }
    }
}

impl Db {
    /// The index lists the entries in the order in which they are shown.
    pub closed spec fn indexed(&self) -> bool {
        lists_in_order(self.order@, self@)
    }

    /// The store is well formed: identities grow along the log, and the
    /// index agrees with it.
    pub open spec fn wf(&self) -> bool {
        &&& increasing_ids(self@)
        &&& self.indexed()
    }

    /// The store without any entry.
    pub fn empty() -> (db: Db)
        ensures
            db.wf(),
            db@ == Seq::<EntryView>::empty(),
    {
        let db = Db { entries: Vec::new(), order: Vec::new() };
        assert(db@ =~= Seq::<EntryView>::empty());
        db
    }

    /// Makes the store from the entries that the backing store holds, given
    /// in the order in which they were appended. A sequence whose identities
    /// do not grow is not a log of this store.
    pub fn init(rows: Vec<HistoryEntry>) -> (made: Result<Db, StorageError>)
        ensures
            increasing_ids(entry_views(rows@)) ==> (made matches Ok(db) && db.wf() && db@
                == entry_views(rows@)),
            !increasing_ids(entry_views(rows@)) ==> made == Err::<Db, StorageError>(
                StorageError::Corrupt,
            ),
    {
        let ghost log = entry_views(rows@);
        let mut order: Vec<usize> = Vec::new();
        let mut n: usize = 0;
        while n < rows.len()
            invariant
                n <= rows.len(),
                n == order.len(),
                log == entry_views(rows@),
                lists_in_order(order@, log.take(n as int)),
                increasing_ids(log.take(n as int)),
            decreases rows.len() - n,
        {
            if n > 0 && rows[n - 1].id >= rows[n].id {
                assert(!(log[n - 1].id < log[n as int].id));
                return Err(StorageError::Corrupt);
            }
            proof {
                let grown = log.take(n + 1);
                assert forall|i: int, j: int| 0 <= i < j < grown.len() implies grown[i].id
                    < grown[j].id by {
                    let known = log.take(n as int);
                    if j < n {
                        assert(known[i].id < known[j].id);
                    } else if i < n - 1 {
                        assert(known[i].id < known[n - 1].id);
                    }
                }
            }
            settle(&rows, &mut order);
            n = n + 1;
        }
        assert(log.take(n as int) =~= log);
        Ok(Db { entries: rows, order })
    }

    /// Appends an entry with the given fields and the next identity, and
    /// returns that identity. Fails, and leaves the log as it is, only when
    /// no identity is left.
    pub fn record(
        &mut self,
        command: String,
        timestamp: i64,
        cwd: Option<String>,
        exit_code: Option<i32>,
        session_id: Option<String>,
        hostname: Option<String>,
    ) -> (given: Result<i64, StorageError>)
        requires
            old(self).wf(),
        ensures
            final(self).wf(),
            has_room(old(self)@) ==> {
                &&& given matches Ok(id)
                &&& id as int == next_id(old(self)@)
                &&& final(self)@ == old(self)@.push(
                    EntryView {
                        id: next_id(old(self)@),
                        command: command@,
                        timestamp: timestamp as int,
                        cwd: text_view(cwd),
                        exit_code: code_view(exit_code),
                        session_id: text_view(session_id),
                        hostname: text_view(hostname),
                    },
                )
            },
            !has_room(old(self)@) ==> given == Err::<i64, StorageError>(StorageError::Unwritable)
                && final(self)@ == old(self)@,
    {
        let n = self.entries.len();
        let id: i64 = if n == 0 {
            1
        } else {
            let last = self.entries[n - 1].id;
            if last == i64::MAX {
                return Err(StorageError::Unwritable);
            }
            last + 1
        };
        let ghost before = self@;
        let entry = HistoryEntry { id, command, timestamp, cwd, exit_code, session_id, hostname };
        self.entries.push(entry);
        proof {
            let after = entry_views(self.entries@);
            assert(after =~= before.push(entry@));
            assert(after.take(n as int) =~= before);
            assert(after.take(n + 1) =~= after);
        }
        settle(&self.entries, &mut self.order);
        Ok(id)
    }

    /// Appends an entry for a command that has just run: the time is read
    /// from the clock and the machine's name from the system, and the entry
    /// gets the next identity, which is returned. Fails, and leaves the log
    /// as it is, only when no identity is left.
    pub fn add_entry(
        &mut self,
        command: &str,
        cwd: Option<&str>,
        exit_code: Option<i32>,
        session_id: Option<&str>,
    ) -> (given: Result<i64, StorageError>)
        requires
            old(self).wf(),
        ensures
            final(self).wf(),
            has_room(old(self)@) ==> {
                &&& given matches Ok(id)
                &&& id as int == next_id(old(self)@)
                &&& final(self)@.len() == old(self)@.len() + 1
                &&& final(self)@.drop_last() == old(self)@
                &&& final(self)@.last().id == next_id(old(self)@)
                &&& final(self)@.last().command == command@
                &&& final(self)@.last().cwd == str_view(cwd)
                &&& final(self)@.last().exit_code == code_view(exit_code)
                &&& final(self)@.last().session_id == str_view(session_id)
            },
            !has_room(old(self)@) ==> given == Err::<i64, StorageError>(StorageError::Unwritable)
                && final(self)@ == old(self)@,
    {
        let timestamp = now_seconds();
        let hostname = local_hostname();
        let ghost before = self@;
        let given = self.record(
            command.to_owned(),
            timestamp,
            owned_text(cwd),
            exit_code,
            owned_text(session_id),
            hostname,
        );
        proof {
            if has_room(before) {
                assert(self@.drop_last() =~= before);
            }
        }
        given
    }

    /// Scans the log for `query`: of the most recent entries, at most
    /// `SCAN_CAP` of them, those whose command contains `query`, most recent
    /// first. A scan of this store cannot fail.
    pub fn search_entries(&self, query: &str) -> (scanned: Result<Vec<HistoryEntry>, StorageError>)
        requires
            self.wf(),
        ensures
            scanned matches Ok(found) && entry_views(found@) == scan(self@, query@),
    {
        let n = self.entries.len();
        let count = if n <= SCAN_CAP { n } else { SCAN_CAP };
        let ghost log = self@;
        let ghost shown = window(log);
        let ghost keep = matching(query@);
        proof {
            lemma_newest_first_len(log);
        }
        let wanted = chars_of(query);
        let mut found: Vec<HistoryEntry> = Vec::new();
        let mut k: usize = 0;
        assert(shown.take(0).filter(keep) =~= Seq::<EntryView>::empty()) by {
            assert(shown.take(0) =~= Seq::<EntryView>::empty());
        }
        while k < count
            invariant
                k <= count,
                count == shown.len(),
                count <= n,
                n == self.entries.len(),
                log == self@,
                self.wf(),
                shown == window(log),
                keep == matching(query@),
                wanted@ == query@,
                entry_views(found@) == shown.take(k as int).filter(keep),
            decreases count - k,
        {
            let e = &self.entries[self.order[n - 1 - k]];
            assert(e@ == shown[k as int]) by {
                assert(log[self.order@[n - 1 - k] as int] == newest_first(log)[k as int]);
            }
            let ghost had = found@;
            proof {
                assert(shown.take(k + 1) =~= shown.take(k as int).push(shown[k as int]));
                shown.take(k as int).lemma_filter_push(shown[k as int], keep);
            }
            let command = chars_of(e.command.as_str());
            if contains_chars(&command, &wanted) {
                found.push(e.clone());
                assert(entry_views(found@) =~= entry_views(had).push(e@));
            }
            k = k + 1;
        }
        assert(shown.take(count as int) =~= shown);
        Ok(found)
    }

    /// The `n` most frequent commands of the whole log with the number of
    /// entries that hold each, the most frequent first; of two commands with
    /// one count, the one that occurred first in the log comes first.
    pub fn top_commands(&self, n: usize) -> (top: Vec<(String, usize)>)
        ensures
            count_views(top@) == top_commands(self@, n as nat),
    {
        let (names, counts) = count_commands(&self.entries);
        let best = select_top(&names, &counts, n);
        let ghost counted = paired(names@, counts@);
        let mut top: Vec<(String, usize)> = Vec::new();
        let mut q: usize = 0;
        assert(count_views(top@) =~= picked(best@, counted).take(0));
        while q < best.len()
            invariant
                q <= best.len(),
                names.len() == counts.len(),
                counted == paired(names@, counts@),
                forall|k: int| 0 <= k < best.len() ==> 0 <= #[trigger] best[k] < names.len(),
                count_views(top@) == picked(best@, counted).take(q as int),
            decreases best.len() - q,
        {
            let at = best[q];
            let ghost had = top@;
            top.push((names[at].clone(), counts[at]));
            assert(count_views(top@) =~= count_views(had).push(counted[at as int]));
            assert(picked(best@, counted).take(q + 1) =~= picked(best@, counted).take(
                q as int,
            ).push(counted[at as int]));
            q = q + 1;
        }
        assert(picked(best@, counted).take(q as int) =~= picked(best@, counted));
        top
    }

    /// The ten most frequent commands, as `top_commands` gives them.
    /// Counting over this store cannot fail.
    pub fn get_stats(&self) -> (stats: Result<Vec<(String, usize)>, StorageError>)
        ensures
            stats matches Ok(top) && count_views(top@) == top_commands(self@, 10),
    {
        Ok(self.top_commands(10))
    }

    /// The entries in the order in which they were appended.
    pub fn entries(&self) -> (all: &Vec<HistoryEntry>)
        ensures
            entry_views(all@) == self@,
    {
        &self.entries
    }
}

fn owned_text(t: Option<&str>) -> (owned: Option<String>)
    ensures
        text_view(owned) == str_view(t),
{
    match t {
        Some(s) => Some(s.to_owned()),
        None => None,
    }
}

} // verus!
