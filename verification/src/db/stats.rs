//! How often each command was run.

use vstd::prelude::*;
use crate::db::{entry_views, EntryView, HistoryEntry};
use crate::insertion::{capped, lead, lemma_lead, lemma_lead_is, lemma_put_capped, put};

verus! {

/// A command with the number of entries that hold it.
pub struct CountView {
    pub command: Seq<char>,
    pub count: int,
}

/// How many entries of `log` hold exactly the command `command`.
pub open spec fn occurrences(log: Seq<EntryView>, command: Seq<char>) -> nat
    decreases log.len(),
{
    if log.len() == 0 {
        0
    } else {
        occurrences(log.drop_last(), command) + if log.last().command == command {
            1nat
        } else {
            0nat
        }
    }
}

/// Two counts are of different commands.
pub open spec fn other_command() -> spec_fn(CountView, CountView) -> bool {
    |a: CountView, b: CountView| a.command != b.command
}

/// The position in `counts` of the count of `command`, or the length of
/// `counts` where it has none.
pub open spec fn find(counts: Seq<CountView>, command: Seq<char>) -> int {
    lead(counts, CountView { command, count: 0 }, other_command()) as int
}

/// `counts` with one more entry counted for `command`: its count goes up by
/// one, or it is added at the end with the count 1.
pub open spec fn bump(counts: Seq<CountView>, command: Seq<char>) -> Seq<CountView> {
    let at = find(counts, command);
    if at < counts.len() {
        counts.update(at, CountView { command, count: counts[at].count + 1 })
    } else {
        counts.push(CountView { command, count: 1 })
    }
}

/// The commands of a log with their counts, in the order in which each
/// command first occurs.
pub open spec fn tally(log: Seq<EntryView>) -> Seq<CountView>
    decreases log.len(),
{
    if log.len() == 0 {
        Seq::empty()
    } else {
        bump(tally(log.drop_last()), log.last().command)
    }
}

/// The order of the ranking as a relation: a count stays in front of one
/// that is not higher.
pub open spec fn by_count() -> spec_fn(CountView, CountView) -> bool {
    |a: CountView, b: CountView| a.count >= b.count
}

/// `counts` from the highest count to the lowest; counts that are equal keep
/// the order they had.
pub open spec fn ranked(counts: Seq<CountView>) -> Seq<CountView>
    decreases counts.len(),
{
    if counts.len() == 0 {
        Seq::empty()
    } else {
        put(ranked(counts.drop_last()), counts.last(), by_count())
    }
}

/// The `n` most frequent commands of a log with their counts, the most
/// frequent first; of two commands with one count, the one that occurred
/// first in the log comes first.
pub open spec fn top_commands(log: Seq<EntryView>, n: nat) -> Seq<CountView> {
    capped(ranked(tally(log)), n)
}

/// No command occurs more often than the log is long.
pub proof fn lemma_occurrences_bound(log: Seq<EntryView>, command: Seq<char>)
    ensures
        occurrences(log, command) <= log.len(),
    decreases log.len(),
{
    if log.len() > 0 {
        lemma_occurrences_bound(log.drop_last(), command);
    }
}

/// The tally is exact: each of its counts is the number of entries that hold
/// its command and is at least 1, no command is counted twice, and every
/// command of the log is counted.
pub proof fn lemma_tally_exact(log: Seq<EntryView>)
    ensures
        forall|j: int|
            0 <= j < tally(log).len() ==> (#[trigger] tally(log)[j]).count == occurrences(
                log,
                tally(log)[j].command,
            ) && tally(log)[j].count >= 1,
        forall|i: int, j: int|
            0 <= i < j < tally(log).len() ==> (#[trigger] tally(log)[i]).command != (
            #[trigger] tally(log)[j]).command,
        forall|command: Seq<char>|
            occurrences(log, command) > 0 ==> 0 <= #[trigger] find(tally(log), command) < tally(
                log,
            ).len(),
        tally(log).len() <= log.len(),
    decreases log.len(),
{
    if log.len() > 0 {
        let rest = log.drop_last();
        let c = log.last().command;
        let had = tally(rest);
        let now = tally(log);
        let at = find(had, c);
        let probe = CountView { command: c, count: 0 };
        lemma_tally_exact(rest);
        lemma_lead(had, probe, other_command());
        assert forall|j: int| 0 <= j < now.len() implies (#[trigger] now[j]).count == occurrences(
            log,
            now[j].command,
        ) && now[j].count >= 1 by {
            if at < had.len() {
                if j != at {
                    assert(now[j] == had[j]);
                    if j < at {
                        assert(had[j].command != had[at].command);
                    } else {
                        assert(had[at].command != had[j].command);
                    }
                }
            } else {
                if j < had.len() {
                    assert(now[j] == had[j]);
                    assert(other_command()(had[j], probe));
                } else {
                    if occurrences(rest, c) > 0 {
                        assert(find(had, c) < had.len());
                    }
                }
            }
        }
        assert forall|i: int, j: int| 0 <= i < j < now.len() implies (#[trigger] now[i]).command
            != (#[trigger] now[j]).command by {
            if at < had.len() {
                assert(now[i].command == had[i].command);
                assert(now[j].command == had[j].command);
            } else {
                if j < had.len() {
                    assert(now[i] == had[i] && now[j] == had[j]);
                } else {
                    assert(now[i] == had[i]);
                    assert(other_command()(had[i], probe));
                }
            }
        }
        assert forall|command: Seq<char>| occurrences(log, command) > 0 implies 0 <= #[trigger] find(
            now,
            command,
        ) < now.len() by {
            lemma_find(now, command);
            if find(now, command) >= now.len() {
                if command == c {
                    if at < had.len() {
                        assert(now[at].command == c);
                    } else {
                        assert(now[had.len() as int].command == c);
                    }
                } else {
                    let old_at = find(had, command);
                    lemma_find(had, command);
                    assert(now[old_at].command == command);
                }
            }
        }
    }
}

/// `find` gives the first position whose command is `command`: no count in
/// front of it has that command, and the count at it, if there is one, has.
pub proof fn lemma_find(counts: Seq<CountView>, command: Seq<char>)
    ensures
        0 <= find(counts, command) <= counts.len(),
        forall|k: int| 0 <= k < find(counts, command) ==> (#[trigger] counts[k]).command != command,
        find(counts, command) < counts.len() ==> counts[find(counts, command)].command == command,
{
    let probe = CountView { command, count: 0 };
    lemma_lead(counts, probe, other_command());
    assert forall|k: int| 0 <= k < find(counts, command) implies (#[trigger] counts[k]).command
        != command by {
        assert(other_command()(counts[k], probe));
    }
}

/// Ranking keeps the counts: each stands in the result as often as before.
pub proof fn lemma_ranked_keeps(counts: Seq<CountView>)
    ensures
        ranked(counts).len() == counts.len(),
        ranked(counts).to_multiset() == counts.to_multiset(),
    decreases counts.len(),
{
    broadcast use vstd::seq_lib::group_to_multiset_ensures;

    if counts.len() > 0 {
        let rest = counts.drop_last();
        lemma_ranked_keeps(rest);
        lemma_lead(ranked(rest), counts.last(), by_count());
        assert(counts =~= rest.push(counts.last()));
        assert(ranked(counts).to_multiset() =~= counts.to_multiset());
    }
}

/// The ranking runs from the highest count to the lowest.
pub proof fn lemma_ranked_sorted(counts: Seq<CountView>)
    ensures
        forall|i: int, j: int|
            0 <= i < j < ranked(counts).len() ==> (#[trigger] ranked(counts)[i]).count >= (
            #[trigger] ranked(counts)[j]).count,
    decreases counts.len(),
{
    if counts.len() > 0 {
        let rest = counts.drop_last();
        let x = counts.last();
        let had = ranked(rest);
        let r = lead(had, x, by_count()) as int;
        let now = ranked(counts);
        lemma_ranked_sorted(rest);
        lemma_lead(had, x, by_count());
        assert(now == had.insert(r, x));
        assert forall|i: int, j: int| 0 <= i < j < now.len() implies (#[trigger] now[i]).count >= (
        #[trigger] now[j]).count by {
            if j < r {
                assert(now[i] == had[i] && now[j] == had[j]);
            } else if j == r {
                assert(now[i] == had[i]);
                assert(by_count()(had[i], x));
            } else if i < r {
                assert(now[i] == had[i] && now[j] == had[j - 1]);
            } else if i == r {
                assert(now[j] == had[j - 1]);
                assert(!by_count()(had[r], x));
                if j - 1 > r {
                    assert(had[r].count >= had[j - 1].count);
                }
            } else {
                assert(now[i] == had[i - 1] && now[j] == had[j - 1]);
            }
        }
    }
}

/// Ranking counts of different commands leaves no command in twice.
pub proof fn lemma_ranked_distinct(counts: Seq<CountView>)
    requires
        forall|i: int, j: int|
            0 <= i < j < counts.len() ==> (#[trigger] counts[i]).command != (
            #[trigger] counts[j]).command,
    ensures
        forall|i: int, j: int|
            0 <= i < j < ranked(counts).len() ==> (#[trigger] ranked(counts)[i]).command != (
            #[trigger] ranked(counts)[j]).command,
    decreases counts.len(),
{
    broadcast use vstd::seq_lib::group_to_multiset_ensures;

    if counts.len() > 0 {
        let rest = counts.drop_last();
        let x = counts.last();
        let had = ranked(rest);
        let r = lead(had, x, by_count()) as int;
        let now = ranked(counts);
        assert forall|i: int, j: int| 0 <= i < j < rest.len() implies (#[trigger] rest[i]).command
            != (#[trigger] rest[j]).command by {
            assert(rest[i] == counts[i] && rest[j] == counts[j]);
        }
        lemma_ranked_distinct(rest);
        lemma_ranked_keeps(rest);
        lemma_lead(had, x, by_count());
        assert(now == had.insert(r, x));
        assert forall|k: int| 0 <= k < had.len() implies (#[trigger] had[k]).command
            != x.command by {
            assert(had.contains(had[k]));
            assert(had.to_multiset().count(had[k]) > 0);
            assert(rest.to_multiset().count(had[k]) > 0);
            assert(rest.contains(had[k]));
            let at = choose|at: int| 0 <= at < rest.len() && rest[at] == had[k];
            assert(counts[at].command != counts[counts.len() - 1].command);
        }
        assert forall|i: int, j: int| 0 <= i < j < now.len() implies (#[trigger] now[i]).command
            != (#[trigger] now[j]).command by {
            if j < r {
                assert(now[i] == had[i] && now[j] == had[j]);
            } else if j == r {
                assert(now[i] == had[i]);
            } else if i < r {
                assert(now[i] == had[i] && now[j] == had[j - 1]);
            } else if i == r {
                assert(now[j] == had[j - 1]);
            } else {
                assert(now[i] == had[i - 1] && now[j] == had[j - 1]);
            }
        }
    }
}

/// The statistics leave out no command that is more frequent than one they
/// list: a command of the log is listed, or it occurs no more often than any
/// command that is.
pub proof fn lemma_top_commands_lead(log: Seq<EntryView>, n: nat, command: Seq<char>)
    requires
        occurrences(log, command) > 0,
    ensures
        (exists|i: int|
            0 <= i < top_commands(log, n).len() && (#[trigger] top_commands(log, n)[i]).command
                == command) || (forall|i: int|
            0 <= i < top_commands(log, n).len() ==> (#[trigger] top_commands(log, n)[i]).count
                >= occurrences(log, command)),
{
    broadcast use vstd::seq_lib::group_to_multiset_ensures;

    let counted = tally(log);
    let all = ranked(counted);
    let top = top_commands(log, n);
    lemma_tally_exact(log);
    lemma_find(counted, command);
    lemma_ranked_keeps(counted);
    lemma_ranked_sorted(counted);
    let held = counted[find(counted, command)];
    assert(counted.contains(held));
    assert(counted.to_multiset().count(held) > 0);
    assert(all.to_multiset().count(held) > 0);
    assert(all.contains(held));
    let p = choose|p: int| 0 <= p < all.len() && all[p] == held;
    if p < top.len() {
        assert(top[p].command == command);
    } else {
        assert forall|i: int| 0 <= i < top.len() implies (#[trigger] top[i]).count >= occurrences(
            log,
            command,
        ) by {
            assert(top[i] == all[i]);
            assert(all[i].count >= all[p].count);
        }
    }
}

/// What the statistics say: at most `n` commands, from the most frequent to
/// the least frequent, each once and with the number of entries that hold
/// it.
pub proof fn lemma_top_commands(log: Seq<EntryView>, n: nat)
    ensures
        top_commands(log, n).len() <= n,
        forall|i: int, j: int|
            0 <= i < j < top_commands(log, n).len() ==> (#[trigger] top_commands(log, n)[i]).command
                != (#[trigger] top_commands(log, n)[j]).command,
        forall|i: int, j: int|
            0 <= i < j < top_commands(log, n).len() ==> (#[trigger] top_commands(log, n)[i]).count
                >= (#[trigger] top_commands(log, n)[j]).count,
        forall|i: int|
            0 <= i < top_commands(log, n).len() ==> (#[trigger] top_commands(log, n)[i]).count
                == occurrences(log, top_commands(log, n)[i].command),
{
    broadcast use vstd::seq_lib::group_to_multiset_ensures;

    let counted = tally(log);
    let all = ranked(counted);
    let top = top_commands(log, n);
    lemma_tally_exact(log);
    lemma_ranked_keeps(counted);
    lemma_ranked_sorted(counted);
    lemma_ranked_distinct(counted);
    assert forall|i: int, j: int| 0 <= i < j < top.len() implies (#[trigger] top[i]).count >= (
    #[trigger] top[j]).count by {
        assert(top[i] == all[i] && top[j] == all[j]);
    }
    assert forall|i: int, j: int| 0 <= i < j < top.len() implies (#[trigger] top[i]).command != (
    #[trigger] top[j]).command by {
        assert(top[i] == all[i] && top[j] == all[j]);
    }
    assert forall|i: int| 0 <= i < top.len() implies (#[trigger] top[i]).count == occurrences(
        log,
        top[i].command,
    ) by {
        assert(top[i] == all[i]);
        assert(all.contains(all[i]));
        assert(all.to_multiset().count(all[i]) > 0);
        assert(counted.to_multiset().count(all[i]) > 0);
        assert(counted.contains(all[i]));
        let at = choose|at: int| 0 <= at < counted.len() && counted[at] == all[i];
        assert(counted[at].count == occurrences(log, counted[at].command));
    }
}

/// The counts held in two vectors side by side, as one sequence.
pub(crate) open spec fn paired(names: Seq<String>, counts: Seq<usize>) -> Seq<CountView> {
    Seq::new(names.len(), |j: int| CountView { command: names[j]@, count: counts[j] as int })
}

/// The counts at the positions that `best` lists.
pub(crate) open spec fn picked(best: Seq<usize>, counted: Seq<CountView>) -> Seq<CountView> {
    Seq::new(best.len(), |k: int| counted[best[k] as int])
}

/// Counts the commands of `entries`, in the order in which each first
/// occurs.
pub(crate) fn count_commands(entries: &Vec<HistoryEntry>) -> (counted: (Vec<String>, Vec<usize>))
    ensures
        counted.0.len() == counted.1.len(),
        paired(counted.0@, counted.1@) == tally(entry_views(entries@)),
{
    let ghost log = entry_views(entries@);
    let mut names: Vec<String> = Vec::new();
    let mut counts: Vec<usize> = Vec::new();
    let mut i: usize = 0;
    assert(paired(names@, counts@) =~= tally(log.take(0)));
    while i < entries.len()
        invariant
            i <= entries.len(),
            log == entry_views(entries@),
            names.len() == counts.len(),
            paired(names@, counts@) == tally(log.take(i as int)),
        decreases entries.len() - i,
    {
        let command = &entries[i].command;
        let ghost had = paired(names@, counts@);
        let ghost probe = CountView { command: command@, count: 0 };
        let mut j: usize = 0;
        while j < names.len() && !(names[j] == *command)
            invariant
                j <= names.len(),
                names.len() == counts.len(),
                had == paired(names@, counts@),
                probe == (CountView { command: command@, count: 0 }),
                forall|k: int| 0 <= k < j ==> other_command()(#[trigger] had[k], probe),
            decreases names.len() - j,
        {
            j = j + 1;
        }
        proof {
            if j < names.len() {
                assert(!other_command()(had[j as int], probe));
            }
            lemma_lead_is(had, probe, other_command(), j as int);
            lemma_tally_exact(log.take(i as int));
            if j < names.len() {
                lemma_occurrences_bound(log.take(i as int), had[j as int].command);
            }
            assert(log.take(i + 1).drop_last() =~= log.take(i as int));
        }
        if j < names.len() {
            let seen = counts[j];
            counts.set(j, seen + 1);
        } else {
            names.push(command.clone());
            counts.push(1);
        }
        assert(paired(names@, counts@) =~= bump(had, command@));
        i = i + 1;
    }
    assert(log.take(i as int) =~= log);
    (names, counts)
}

/// Picks the positions of the `n` highest counts, the highest first.
pub(crate) fn select_top(names: &Vec<String>, counts: &Vec<usize>, n: usize) -> (best: Vec<usize>)
    requires
        names.len() == counts.len(),
    ensures
        forall|k: int| 0 <= k < best.len() ==> 0 <= #[trigger] best[k] < names.len(),
        picked(best@, paired(names@, counts@)) == capped(
            ranked(paired(names@, counts@)),
            n as nat,
        ),
{
    let ghost counted = paired(names@, counts@);
    let mut best: Vec<usize> = Vec::new();
    let mut k: usize = 0;
    assert(picked(best@, counted) =~= capped(ranked(counted.take(0)), n as nat));
    while k < counts.len()
        invariant
            k <= counts.len(),
            names.len() == counts.len(),
            counted == paired(names@, counts@),
            best.len() <= n,
            forall|b: int| 0 <= b < best.len() ==> 0 <= #[trigger] best[b] < k,
            picked(best@, counted) == capped(ranked(counted.take(k as int)), n as nat),
        decreases counts.len() - k,
    {
        let ghost x = counted[k as int];
        let ghost had = picked(best@, counted);
        let mut p: usize = 0;
        while p < best.len() && counts[best[p]] >= counts[k]
            invariant
                p <= best.len(),
                k < counts.len(),
                names.len() == counts.len(),
                counted == paired(names@, counts@),
                x == counted[k as int],
                had == picked(best@, counted),
                forall|b: int| 0 <= b < best.len() ==> 0 <= #[trigger] best[b] < k,
                forall|b: int| 0 <= b < p ==> by_count()(#[trigger] had[b], x),
            decreases best.len() - p,
        {
            p = p + 1;
        }
        proof {
            if p < best.len() {
                assert(!by_count()(had[p as int], x));
            }
            lemma_lead_is(had, x, by_count(), p as int);
            lemma_put_capped(ranked(counted.take(k as int)), x, by_count(), n as nat);
            assert(counted.take(k + 1).drop_last() =~= counted.take(k as int));
        }
        best.insert(p, k);
        assert(picked(best@, counted) =~= put(had, x, by_count()));
        if best.len() > n {
            let _ = best.pop();
            assert(picked(best@, counted) =~= put(had, x, by_count()).take(n as int));
        }
        k = k + 1;
    }
    assert(counted.take(k as int) =~= counted);
    best
}

} // verus!
