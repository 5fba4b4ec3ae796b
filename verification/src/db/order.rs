//! The order in which the store shows its entries, and what a scan returns.

use vstd::prelude::*;
use crate::db::EntryView;
use crate::insertion::{capped, lead, lemma_lead, lemma_lead_is, put};
use crate::text::{contains_text, lemma_contains_empty};

verus! {

/// The largest number of entries that one scan looks at.
pub const SCAN_CAP: usize = 1000;

/// `a` is shown before `b`: the later timestamp first, and of two entries
/// with one timestamp the one inserted later (the higher identity) first.
pub open spec fn precedes(a: EntryView, b: EntryView) -> bool {
    a.timestamp > b.timestamp || (a.timestamp == b.timestamp && a.id > b.id)
}

/// Every entry of `shown` precedes those behind it.
pub open spec fn in_order(shown: Seq<EntryView>) -> bool {
    forall|i: int, j: int|
        0 <= i < j < shown.len() ==> precedes(#[trigger] shown[i], #[trigger] shown[j])
}

/// Identities grow along the log: what was appended later has the higher one.
pub open spec fn increasing_ids(log: Seq<EntryView>) -> bool {
    forall|i: int, j: int| 0 <= i < j < log.len() ==> log[i].id < log[j].id
}

/// The order of the store as a relation.
pub open spec fn by_recency() -> spec_fn(EntryView, EntryView) -> bool {
    |a: EntryView, b: EntryView| precedes(a, b)
}

/// How many entries at the front of `shown` precede `e`.
pub open spec fn rank(shown: Seq<EntryView>, e: EntryView) -> nat {
    lead(shown, e, by_recency())
}

/// `shown` with `e` put behind the entries at its front that precede it.
pub open spec fn place(shown: Seq<EntryView>, e: EntryView) -> Seq<EntryView> {
    put(shown, e, by_recency())
}

/// The entries of a log, most recent first.
pub open spec fn newest_first(log: Seq<EntryView>) -> Seq<EntryView>
    decreases log.len(),
{
    if log.len() == 0 {
        Seq::empty()
    } else {
        place(newest_first(log.drop_last()), log.last())
    }
}

/// The most recent entries of a log, at most `SCAN_CAP` of them, most recent
/// first.
pub open spec fn window(log: Seq<EntryView>) -> Seq<EntryView> {
    capped(newest_first(log), SCAN_CAP as nat)
}

/// The entries whose command contains `filter`.
pub open spec fn matching(filter: Seq<char>) -> spec_fn(EntryView) -> bool {
    |e: EntryView| contains_text(e.command, filter)
}

/// What a scan of `log` for `filter` returns: the entries of the window
/// whose command contains `filter`, in the window's order.
pub open spec fn scan(log: Seq<EntryView>, filter: Seq<char>) -> Seq<EntryView> {
    window(log).filter(matching(filter))
}

/// `rank` is at most the length, every entry before it precedes `e`, and the
/// entry at it, if there is one, does not.
pub proof fn lemma_rank(shown: Seq<EntryView>, e: EntryView)
    ensures
        rank(shown, e) <= shown.len(),
        forall|k: int| 0 <= k < rank(shown, e) ==> precedes(#[trigger] shown[k], e),
        rank(shown, e) < shown.len() ==> !precedes(shown[rank(shown, e) as int], e),
{
    lemma_lead(shown, e, by_recency());
}

/// The only number with the three properties of `lemma_rank` is `rank`.
pub proof fn lemma_rank_is(shown: Seq<EntryView>, e: EntryView, r: int)
    requires
        0 <= r <= shown.len(),
        forall|k: int| 0 <= k < r ==> precedes(#[trigger] shown[k], e),
        r < shown.len() ==> !precedes(shown[r], e),
    ensures
        rank(shown, e) == r,
{
    lemma_lead_is(shown, e, by_recency(), r);
}

/// Ordering keeps the number of entries.
pub proof fn lemma_newest_first_len(log: Seq<EntryView>)
    ensures
        newest_first(log).len() == log.len(),
    decreases log.len(),
{
    if log.len() > 0 {
        lemma_newest_first_len(log.drop_last());
        lemma_rank(newest_first(log.drop_last()), log.last());
    }
}

/// Ordering keeps the entries: each stands in the result as often as in the
/// log.
pub proof fn lemma_newest_first_keeps(log: Seq<EntryView>)
    ensures
        newest_first(log).to_multiset() == log.to_multiset(),
        forall|e: EntryView| newest_first(log).contains(e) <==> log.contains(e),
    decreases log.len(),
{
    broadcast use vstd::seq_lib::group_to_multiset_ensures;

    if log.len() > 0 {
        let rest = log.drop_last();
        let shown = newest_first(rest);
        lemma_newest_first_keeps(rest);
        lemma_rank(shown, log.last());
        assert(log =~= rest.push(log.last()));
        assert(newest_first(log).to_multiset() =~= log.to_multiset());
    }
    assert forall|e: EntryView| newest_first(log).contains(e) <==> log.contains(e) by {
        assert(newest_first(log).to_multiset().count(e) == log.to_multiset().count(e));
    }
}

/// In a log whose identities grow, of any two entries of the result the one
/// that stands first precedes the other.
pub proof fn lemma_newest_first_sorted(log: Seq<EntryView>)
    requires
        increasing_ids(log),
    ensures
        in_order(newest_first(log)),
    decreases log.len(),
{
    if log.len() > 0 {
        let rest = log.drop_last();
        let e = log.last();
        let shown = newest_first(rest);
        let r = rank(shown, e) as int;
        assert(increasing_ids(rest));
        lemma_newest_first_sorted(rest);
        lemma_newest_first_keeps(rest);
        lemma_rank(shown, e);
        assert forall|k: int| 0 <= k < shown.len() implies (#[trigger] shown[k]).id < e.id by {
            assert(shown.contains(shown[k]));
            assert(rest.contains(shown[k]));
            let at = choose|at: int| 0 <= at < rest.len() && rest[at] == shown[k];
            assert(log[at].id < log[log.len() - 1].id);
        }
        let grown = newest_first(log);
        assert(grown == shown.insert(r, e));
        assert forall|i: int, j: int| 0 <= i < j < grown.len() implies precedes(
            #[trigger] grown[i],
            #[trigger] grown[j],
        ) by {
            if j < r {
                assert(grown[i] == shown[i] && grown[j] == shown[j]);
            } else if j == r {
                assert(grown[i] == shown[i]);
            } else if i < r {
                assert(grown[i] == shown[i] && grown[j] == shown[j - 1]);
            } else if i == r {
                assert(grown[j] == shown[j - 1]);
                if j - 1 > r {
                    assert(precedes(shown[r], shown[j - 1]));
                }
            } else {
                assert(grown[i] == shown[i - 1] && grown[j] == shown[j - 1]);
            }
        }
    }
}

/// Two sequences that hold the same entries, each in order, are one
/// sequence.
pub proof fn lemma_in_order_unique(a: Seq<EntryView>, b: Seq<EntryView>)
    requires
        a.to_multiset() == b.to_multiset(),
        in_order(a),
        in_order(b),
    ensures
        a == b,
    decreases a.len(),
{
    broadcast use vstd::seq_lib::group_to_multiset_ensures;

    a.to_multiset_ensures();
    b.to_multiset_ensures();
    assert(a.len() == b.len());
    if a.len() > 0 {
        assert(a.contains(a[0]));
        assert(b.to_multiset().count(a[0]) > 0);
        assert(b.contains(a[0]));
        let k = choose|k: int| 0 <= k < b.len() && b[k] == a[0];
        assert(b.contains(b[0]));
        assert(a.to_multiset().count(b[0]) > 0);
        assert(a.contains(b[0]));
        let m = choose|m: int| 0 <= m < a.len() && a[m] == b[0];
        if k > 0 {
            assert(precedes(b[0], b[k]));
            if m > 0 {
                assert(precedes(a[0], a[m]));
            }
        }
        assert(a[0] == b[0]);
        let rest_a = a.remove(0);
        let rest_b = b.remove(0);
        assert(rest_a.to_multiset() == rest_b.to_multiset());
        assert forall|i: int, j: int| 0 <= i < j < rest_a.len() implies precedes(
            #[trigger] rest_a[i],
            #[trigger] rest_a[j],
        ) by {
            assert(rest_a[i] == a[i + 1] && rest_a[j] == a[j + 1]);
        }
        assert forall|i: int, j: int| 0 <= i < j < rest_b.len() implies precedes(
            #[trigger] rest_b[i],
            #[trigger] rest_b[j],
        ) by {
            assert(rest_b[i] == b[i + 1] && rest_b[j] == b[j + 1]);
        }
        lemma_in_order_unique(rest_a, rest_b);
        assert forall|i: int| 0 <= i < a.len() implies a[i] == b[i] by {
            if i > 0 {
                assert(a[i] == rest_a[i - 1]);
                assert(b[i] == rest_b[i - 1]);
            }
        }
        assert(a =~= b);
    }
}

/// What `newest_first` is: of a log whose identities grow, the one sequence
/// that holds the entries of the log, each as often as the log does, with
/// every entry in front of those it precedes.
pub proof fn lemma_newest_first_is(log: Seq<EntryView>, shown: Seq<EntryView>)
    requires
        increasing_ids(log),
    ensures
        shown == newest_first(log) <==> shown.to_multiset() == log.to_multiset() && in_order(
            shown,
        ),
{
    lemma_newest_first_keeps(log);
    lemma_newest_first_sorted(log);
    if shown.to_multiset() == log.to_multiset() && in_order(shown) {
        lemma_in_order_unique(shown, newest_first(log));
    }
}

/// A filter keeps the order of what it lets through: where every entry
/// precedes those behind it, the same holds of the entries that are kept.
pub proof fn lemma_filter_sorted(shown: Seq<EntryView>, keep: spec_fn(EntryView) -> bool)
    requires
        in_order(shown),
    ensures
        in_order(shown.filter(keep)),
    decreases shown.len(),
{
    reveal(Seq::filter);
    if shown.len() > 0 {
        let rest = shown.drop_last();
        let kept = rest.filter(keep);
        assert forall|i: int, j: int| 0 <= i < j < rest.len() implies precedes(
            #[trigger] rest[i],
            #[trigger] rest[j],
        ) by {
            assert(rest[i] == shown[i] && rest[j] == shown[j]);
        }
        lemma_filter_sorted(rest, keep);
        assert forall|i: int| 0 <= i < kept.len() implies precedes(
            #[trigger] kept[i],
            shown.last(),
        ) by {
            assert(kept.contains(kept[i]));
            rest.lemma_filter_contains_rev(keep, kept[i]);
            let at = choose|at: int| 0 <= at < rest.len() && rest[at] == kept[i];
            assert(precedes(shown[at], shown[shown.len() - 1]));
        }
    }
}

/// A scan returns its entries most recent first: timestamps never grow along
/// the result, and of two entries with one timestamp the one with the higher
/// identity stands first.
pub proof fn lemma_scan_ordered(log: Seq<EntryView>, filter: Seq<char>)
    requires
        increasing_ids(log),
    ensures
        forall|i: int, j: int|
            0 <= i < j < scan(log, filter).len() ==> {
                let a = #[trigger] scan(log, filter)[i];
                let b = #[trigger] scan(log, filter)[j];
                a.timestamp >= b.timestamp && (a.timestamp == b.timestamp ==> a.id > b.id)
            },
{
    lemma_newest_first_sorted(log);
    let shown = window(log);
    assert forall|i: int, j: int| 0 <= i < j < shown.len() implies precedes(
        #[trigger] shown[i],
        #[trigger] shown[j],
    ) by {
        assert(shown[i] == newest_first(log)[i] && shown[j] == newest_first(log)[j]);
    }
    lemma_filter_sorted(shown, matching(filter));
}

/// A scan returns exactly the entries of the window whose command contains
/// the filter.
pub proof fn lemma_scan_exact(log: Seq<EntryView>, filter: Seq<char>, e: EntryView)
    ensures
        scan(log, filter).contains(e) <==> window(log).contains(e) && contains_text(
            e.command,
            filter,
        ),
{
    let shown = window(log);
    let keep = matching(filter);
    if scan(log, filter).contains(e) {
        let at = choose|at: int| 0 <= at < scan(log, filter).len() && scan(log, filter)[at] == e;
        shown.lemma_filter_contains_rev(keep, e);
        shown.lemma_filter_pred(keep, at);
    }
    if shown.contains(e) && contains_text(e.command, filter) {
        let at = choose|at: int| 0 <= at < shown.len() && shown[at] == e;
        assert(keep(shown[at]));
        shown.lemma_filter_contains(keep, at);
    }
}

/// Every entry of the window is an entry of the log, and a log of at most
/// `SCAN_CAP` entries is all in the window.
pub proof fn lemma_window_holds(log: Seq<EntryView>, e: EntryView)
    ensures
        window(log).contains(e) ==> log.contains(e),
        log.len() <= SCAN_CAP ==> (window(log).contains(e) <==> log.contains(e)),
{
    lemma_newest_first_keeps(log);
    lemma_newest_first_len(log);
    if window(log).contains(e) {
        let at = choose|at: int| 0 <= at < window(log).len() && window(log)[at] == e;
        assert(newest_first(log)[at] == e);
        assert(newest_first(log).contains(e));
    }
}

/// In a log of at most `SCAN_CAP` entries a scan finds exactly the entries
/// whose command contains the filter, and no others.
pub proof fn lemma_scan_finds(log: Seq<EntryView>, filter: Seq<char>, e: EntryView)
    requires
        log.len() <= SCAN_CAP,
    ensures
        scan(log, filter).contains(e) <==> log.contains(e) && contains_text(e.command, filter),
{
    lemma_scan_exact(log, filter, e);
    lemma_window_holds(log, e);
}

/// A scan looks at the window alone: a log that holds just the entries of
/// the window of `log` gives every scan that `log` gives. So a store that is
/// made from the `SCAN_CAP` most recent entries searches as the whole log
/// does.
pub proof fn lemma_scan_of_window(log: Seq<EntryView>, recent: Seq<EntryView>, filter: Seq<char>)
    requires
        increasing_ids(log),
        increasing_ids(recent),
        recent.to_multiset() == window(log).to_multiset(),
    ensures
        window(recent) == window(log),
        scan(recent, filter) == scan(log, filter),
{
    let shown = window(log);
    lemma_newest_first_len(log);
    lemma_newest_first_sorted(log);
    assert(in_order(shown)) by {
        assert forall|i: int, j: int| 0 <= i < j < shown.len() implies precedes(
            #[trigger] shown[i],
            #[trigger] shown[j],
        ) by {
            assert(shown[i] == newest_first(log)[i] && shown[j] == newest_first(log)[j]);
        }
    }
    lemma_newest_first_keeps(recent);
    lemma_newest_first_sorted(recent);
    lemma_in_order_unique(newest_first(recent), shown);
}

/// A scan returns at most `SCAN_CAP` entries.
pub proof fn lemma_scan_capped(log: Seq<EntryView>, filter: Seq<char>)
    ensures
        scan(log, filter).len() <= SCAN_CAP,
        scan(log, filter).len() <= log.len(),
{
    lemma_newest_first_len(log);
    window(log).lemma_filter_len(matching(filter));
}

/// A scan for the empty text returns the whole window.
pub proof fn lemma_scan_unfiltered(log: Seq<EntryView>, filter: Seq<char>)
    requires
        filter.len() == 0,
    ensures
        scan(log, filter) == window(log),
{
    let shown = window(log);
    let keep = matching(filter);
    assert forall|k: int| 0 <= k < shown.len() implies keep(#[trigger] shown[k]) by {
        lemma_contains_empty(shown[k].command, filter);
    }
    lemma_filter_all(shown, keep);
}

/// A filter that lets every entry through changes nothing.
pub proof fn lemma_filter_all(shown: Seq<EntryView>, keep: spec_fn(EntryView) -> bool)
    requires
        forall|k: int| 0 <= k < shown.len() ==> keep(#[trigger] shown[k]),
    ensures
        shown.filter(keep) == shown,
    decreases shown.len(),
{
    reveal(Seq::filter);
    if shown.len() > 0 {
        let rest = shown.drop_last();
        assert forall|k: int| 0 <= k < rest.len() implies keep(#[trigger] rest[k]) by {
            assert(rest[k] == shown[k]);
        }
        lemma_filter_all(rest, keep);
        assert(keep(shown[shown.len() - 1]));
        assert(rest.push(shown.last()) =~= shown);
    }
}

/// How many entries of `log` have a timestamp later than `t`.
pub open spec fn later_count(log: Seq<EntryView>, t: int) -> nat
    decreases log.len(),
{
    if log.len() == 0 {
        0
    } else {
        later_count(log.drop_last(), t) + if log.last().timestamp > t {
            1nat
        } else {
            0nat
        }
    }
}

/// An entry put into a sequence counts once, wherever it is put.
proof fn lemma_later_count_insert(s: Seq<EntryView>, at: int, x: EntryView, t: int)
    requires
        0 <= at <= s.len(),
    ensures
        later_count(s.insert(at, x), t) == later_count(s, t) + if x.timestamp > t {
            1nat
        } else {
            0nat
        },
    decreases s.len(),
{
    let grown = s.insert(at, x);
    if at == s.len() {
        assert(grown.drop_last() =~= s);
    } else {
        assert(grown.drop_last() =~= s.drop_last().insert(at, x));
        assert(grown.last() == s.last());
        lemma_later_count_insert(s.drop_last(), at, x, t);
    }
}

/// Ordering a log does not change how many of its entries are later than
/// `t`.
proof fn lemma_later_count_ordered(log: Seq<EntryView>, t: int)
    ensures
        later_count(newest_first(log), t) == later_count(log, t),
    decreases log.len(),
{
    if log.len() > 0 {
        let shown = newest_first(log.drop_last());
        lemma_later_count_ordered(log.drop_last(), t);
        lemma_rank(shown, log.last());
        lemma_later_count_insert(shown, rank(shown, log.last()) as int, log.last(), t);
    }
}

/// Where the first `r` entries are later than `t` and no other is, `r`
/// entries are later than `t`.
proof fn lemma_later_count_front(s: Seq<EntryView>, t: int, r: int)
    requires
        0 <= r <= s.len(),
        forall|k: int| 0 <= k < r ==> (#[trigger] s[k]).timestamp > t,
        forall|k: int| r <= k < s.len() ==> (#[trigger] s[k]).timestamp <= t,
    ensures
        later_count(s, t) == r,
    decreases s.len(),
{
    if s.len() > 0 {
        let rest = s.drop_last();
        let q = if r == s.len() {
            r - 1
        } else {
            r
        };
        assert forall|k: int| 0 <= k < q implies (#[trigger] rest[k]).timestamp > t by {
            assert(rest[k] == s[k]);
        }
        assert forall|k: int| q <= k < rest.len() implies (#[trigger] rest[k]).timestamp <= t by {
            assert(rest[k] == s[k]);
        }
        lemma_later_count_front(rest, t, q);
        if r == s.len() {
            assert(s[s.len() - 1].timestamp > t);
        } else {
            assert(s[s.len() - 1].timestamp <= t);
        }
    }
}

/// The entry appended last goes behind exactly the entries with a later
/// timestamp: its place among the entries before it is their number.
pub proof fn lemma_rank_is_later_count(log: Seq<EntryView>, e: EntryView)
    requires
        increasing_ids(log.push(e)),
    ensures
        rank(newest_first(log), e) == later_count(log, e.timestamp),
{
    let shown = newest_first(log);
    let r = rank(shown, e) as int;
    assert(increasing_ids(log)) by {
        assert forall|i: int, j: int| 0 <= i < j < log.len() implies log[i].id < log[j].id by {
            assert(log.push(e)[i].id < log.push(e)[j].id);
        }
    }
    lemma_newest_first_sorted(log);
    lemma_newest_first_keeps(log);
    lemma_rank(shown, e);
    assert forall|k: int| 0 <= k < shown.len() implies (#[trigger] shown[k]).id < e.id by {
        assert(shown.contains(shown[k]));
        assert(log.contains(shown[k]));
        let at = choose|at: int| 0 <= at < log.len() && log[at] == shown[k];
        assert(log.push(e)[at].id < log.push(e)[log.len() as int].id);
    }
    assert forall|k: int| r <= k < shown.len() implies (#[trigger] shown[k]).timestamp
        <= e.timestamp by {
        if k > r {
            assert(precedes(shown[r], shown[k]));
        }
    }
    lemma_later_count_front(shown, e.timestamp, r);
    lemma_later_count_ordered(log, e.timestamp);
}

/// Round trip: the entry appended last stands in the unfiltered scan, with
/// every field as it was appended, behind the entries with a later
/// timestamp, as long as fewer than `SCAN_CAP` entries are later than it;
/// with that many later entries it is outside the window.
pub proof fn lemma_append_then_scan(log: Seq<EntryView>, e: EntryView, filter: Seq<char>)
    requires
        increasing_ids(log.push(e)),
        filter.len() == 0,
    ensures
        later_count(log, e.timestamp) < SCAN_CAP ==> scan(log.push(e), filter).len()
            > later_count(log, e.timestamp) && scan(log.push(e), filter)[later_count(
            log,
            e.timestamp,
        ) as int] == e,
        later_count(log, e.timestamp) >= SCAN_CAP ==> !scan(log.push(e), filter).contains(e),
{
    let grown = log.push(e);
    let shown = newest_first(log);
    let r = rank(shown, e) as int;
    lemma_rank_is_later_count(log, e);
    assert(grown.drop_last() =~= log);
    assert(newest_first(grown) == shown.insert(r, e));
    lemma_rank(shown, e);
    lemma_newest_first_len(log);
    lemma_newest_first_len(grown);
    lemma_scan_unfiltered(grown, filter);
    if r < SCAN_CAP {
        assert(window(grown)[r] == e);
    } else {
        lemma_newest_first_keeps(log);
        assert forall|k: int| 0 <= k < window(grown).len() implies window(grown)[k] != e by {
            assert(window(grown)[k] == shown[k]);
            assert(shown.contains(shown[k]));
            assert(log.contains(shown[k]));
            let at = choose|at: int| 0 <= at < log.len() && log[at] == shown[k];
            assert(grown[at].id < grown[grown.len() - 1].id);
        }
    }
}

/// Round trip with a clock that does not run backwards: an entry appended
/// with a timestamp that is no earlier than any in the log is the first of
/// the unfiltered scan.
pub proof fn lemma_latest_is_first(log: Seq<EntryView>, e: EntryView, filter: Seq<char>)
    requires
        increasing_ids(log.push(e)),
        filter.len() == 0,
        forall|i: int| 0 <= i < log.len() ==> (#[trigger] log[i]).timestamp <= e.timestamp,
    ensures
        scan(log.push(e), filter).len() > 0,
        scan(log.push(e), filter)[0] == e,
{
    lemma_later_count_front(log, e.timestamp, 0);
    lemma_append_then_scan(log, e, filter);
}

} // verus!
