//! Partitioning the merged sequence into days.

use vstd::prelude::*;
use crate::entry::{
    all_well_formed, entries_of, entry_of, first_malformed, lemma_entry_of_joined,
    lemma_line_of_entry, split_line, well_formed, Commits, Entry, TimesheetError,
};
use crate::text::{lemma_lex_between_prefix, lex_le, sorted};

verus! {

/// The groups after one more entry: it joins the last group if it has that
/// group's date, and opens a new group otherwise.
pub open spec fn with_entry(groups: Seq<Seq<Entry>>, e: Entry) -> Seq<Seq<Entry>> {
    if groups.len() > 0 && groups.last().len() > 0 && groups.last().last().date == e.date {
        groups.drop_last().push(groups.last().push(e))
    } else {
        groups.push(seq![e])
    }
}

/// The day groups of a sequence of entries: a fold of `with_entry` over the
/// entries from first to last.
pub open spec fn grouped(entries: Seq<Entry>) -> Seq<Seq<Entry>>
    decreases entries.len(),
{
    if entries.len() == 0 {
        Seq::empty()
    } else {
        with_entry(grouped(entries.drop_last()), entries.last())
    }
}

/// All groups laid end to end.
pub open spec fn concat(groups: Seq<Seq<Entry>>) -> Seq<Entry>
    decreases groups.len(),
{
    if groups.len() == 0 {
        Seq::empty()
    } else {
        concat(groups.drop_last()) + groups.last()
    }
}

/// A day group is not empty and all its entries carry one date.
pub open spec fn is_day(group: Seq<Entry>) -> bool {
    group.len() > 0 && forall|k: int| 0 <= k < group.len() ==> (#[trigger] group[k]).date == group[0].date
}

/// Entries of one date stand side by side: between two entries of a date
/// there is no entry of another.
pub open spec fn dates_contiguous(entries: Seq<Entry>) -> bool {
    forall|i: int, j: int, k: int|
        0 <= i < j < k < entries.len() && entries[i].date == entries[k].date
            ==> entries[j].date == entries[i].date
}

/// The groups that are complete together with the one being filled.
pub open spec fn with_open_group(closed: Seq<Seq<Entry>>, current: Seq<Entry>) -> Seq<Seq<Entry>> {
    if current.len() == 0 {
        closed
    } else {
        closed.push(current)
    }
}

/// Splits every line at its first space and partitions the entries into
/// runs of one date, in the order of the lines.
///
/// Fails on the first line without a space, and only then; no line is
/// skipped. No lines give no groups.
pub fn group_days(lines: &Vec<String>) -> (r: Result<Vec<Commits>, TimesheetError>)
    ensures
        match r {
            Ok(groups) => all_well_formed(lines.deep_view()) && groups.deep_view() == grouped(
                entries_of(lines.deep_view()),
            ) && forall|a: int| 0 <= a < groups.len() ==> is_day(#[trigger] groups.deep_view()[a]),
            Err(TimesheetError::MalformedLine { line }) => first_malformed(
                lines.deep_view(),
                line as int,
            ),
        },
{
    let ghost texts = lines.deep_view();
    let ghost entries = entries_of(texts);
    let mut groups: Vec<Commits> = Vec::new();
    let mut current: Commits = Vec::new();
    let mut i: usize = 0;
    assert(entries.take(0) =~= Seq::empty());
    while i < lines.len()
        invariant
            0 <= i <= lines.len(),
            texts == lines.deep_view(),
            entries == entries_of(texts),
            forall|j: int| 0 <= j < i ==> well_formed(#[trigger] texts[j]),
            current.len() == 0 ==> groups.len() == 0,
            with_open_group(groups.deep_view(), current.deep_view()) == grouped(
                entries.take(i as int),
            ),
        decreases lines.len() - i,
    {
        let ghost before = with_open_group(groups.deep_view(), current.deep_view());
        let ghost closed = groups.deep_view();
        let ghost filling = current.deep_view();
        assert(texts[i as int] == lines[i as int]@);
        match split_line(lines[i].as_str()) {
            None => {
                return Err(TimesheetError::MalformedLine { line: i });
            },
            Some(commit) => {
                assert(commit@ == entries[i as int]);
                assert(entries.take(i + 1).drop_last() =~= entries.take(i as int));
                assert(entries.take(i + 1).last() == entries[i as int]);
                if current.len() > 0 && current[current.len() - 1].date == commit.date {
                    current.push(commit);
                    assert(current.deep_view() =~= filling.push(entries[i as int]));
                    assert(with_open_group(groups.deep_view(), current.deep_view()) =~= with_entry(
                        before,
                        entries[i as int],
                    ));
                } else {
                    if current.len() > 0 {
                        groups.push(current);
                        assert(groups.deep_view() =~= closed.push(filling));
                    }
                    current = Vec::new();
                    current.push(commit);
                    assert(current.deep_view() =~= seq![entries[i as int]]);
                    assert(with_open_group(groups.deep_view(), current.deep_view()) =~= with_entry(
                        before,
                        entries[i as int],
                    ));
                }
            },
        }
        i = i + 1;
    }
    assert(entries.take(i as int) =~= entries);
    proof {
        lemma_grouped_days(entries);
    }
    if current.len() > 0 {
        let ghost closed = groups.deep_view();
        groups.push(current);
        assert(groups.deep_view() =~= closed.push(current.deep_view()));
    }
    Ok(groups)
}

/// The date that a day group stands for.
pub open spec fn day_of(group: Seq<Entry>) -> Seq<char> {
    group[0].date
}

/// Some entry carries the date `date`.
pub open spec fn has_date(entries: Seq<Entry>, date: Seq<char>) -> bool {
    exists|i: int| 0 <= i < entries.len() && (#[trigger] entries[i]).date == date
}

/// Some group stands for the date `date`.
pub open spec fn has_day(groups: Seq<Seq<Entry>>, date: Seq<char>) -> bool {
    exists|a: int| 0 <= a < groups.len() && day_of(#[trigger] groups[a]) == date
}

/// No two groups stand for the same date.
pub open spec fn days_distinct(groups: Seq<Seq<Entry>>) -> bool {
    forall|a: int, b: int|
        0 <= a < b < groups.len() ==> day_of(#[trigger] groups[a]) != day_of(#[trigger] groups[b])
}

/// Adding an entry to the groups adds it to the end of what they hold.
pub proof fn lemma_with_entry_concat(groups: Seq<Seq<Entry>>, e: Entry)
    ensures
        concat(with_entry(groups, e)) == concat(groups).push(e),
{
    let next = with_entry(groups, e);
    if groups.len() > 0 && groups.last().len() > 0 && groups.last().last().date == e.date {
        assert(next.drop_last() =~= groups.drop_last());
        assert(next.last() == groups.last().push(e));
        assert(concat(next) =~= concat(groups).push(e));
    } else {
        assert(next.drop_last() =~= groups);
        assert(concat(next) =~= concat(groups).push(e));
    }
}

/// Grouping keeps every entry in its place: the groups are days, two
/// neighbours differ in date, and laid end to end they are the entries.
pub proof fn lemma_grouped_days(entries: Seq<Entry>)
    ensures
        forall|a: int| 0 <= a < grouped(entries).len() ==> is_day(#[trigger] grouped(entries)[a]),
        forall|a: int|
            0 <= a < grouped(entries).len() - 1 ==> day_of(#[trigger] grouped(entries)[a])
                != day_of(grouped(entries)[a + 1]),
        entries.len() > 0 ==> grouped(entries).len() > 0 && grouped(entries).last().last()
            == entries.last(),
        concat(grouped(entries)) == entries,
    decreases entries.len(),
{
    if entries.len() > 0 {
        let rest = entries.drop_last();
        let e = entries.last();
        let prev = grouped(rest);
        let next = grouped(entries);
        lemma_grouped_days(rest);
        lemma_with_entry_concat(prev, e);
        assert(rest.push(e) =~= entries);
        if prev.len() > 0 && prev.last().len() > 0 && prev.last().last().date == e.date {
            let last = prev.last().push(e);
            assert(is_day(prev.last()));
            assert(is_day(last)) by {
                assert forall|k: int| 0 <= k < last.len() implies (#[trigger] last[k]).date
                    == last[0].date by {
                    if k < prev.last().len() {
                        assert(last[k] == prev.last()[k]);
                    }
                }
            }
            assert forall|a: int| 0 <= a < next.len() implies is_day(#[trigger] next[a]) by {
                if a < next.len() - 1 {
                    assert(next[a] == prev[a]);
                }
            }
            assert forall|a: int| 0 <= a < next.len() - 1 implies day_of(#[trigger] next[a])
                != day_of(next[a + 1]) by {
                assert(next[a] == prev[a]);
                assert(day_of(next[a + 1]) == day_of(prev[a + 1]));
            }
        } else {
            assert(is_day(seq![e]));
            assert forall|a: int| 0 <= a < next.len() implies is_day(#[trigger] next[a]) by {
                if a < next.len() - 1 {
                    assert(next[a] == prev[a]);
                }
            }
            assert forall|a: int| 0 <= a < next.len() - 1 implies day_of(#[trigger] next[a])
                != day_of(next[a + 1]) by {
                assert(next[a] == prev[a]);
                if a + 1 < prev.len() {
                    assert(next[a + 1] == prev[a + 1]);
                } else {
                    assert(is_day(prev.last()));
                    assert(prev.last().last().date == prev.last()[0].date);
                }
            }
        }
    }
}

/// The dates of the groups are the dates of the entries.
pub proof fn lemma_grouped_dates(entries: Seq<Entry>)
    ensures
        forall|a: int|
            0 <= a < grouped(entries).len() ==> has_date(
                entries,
                day_of(#[trigger] grouped(entries)[a]),
            ),
        forall|i: int|
            0 <= i < entries.len() ==> has_day(grouped(entries), (#[trigger] entries[i]).date),
    decreases entries.len(),
{
    if entries.len() > 0 {
        let rest = entries.drop_last();
        let e = entries.last();
        let prev = grouped(rest);
        let next = grouped(entries);
        lemma_grouped_dates(rest);
        lemma_grouped_days(rest);
        lemma_grouped_days(entries);
        let joins = prev.len() > 0 && prev.last().len() > 0 && prev.last().last().date == e.date;
        assert forall|a: int| 0 <= a < next.len() implies has_date(
            entries,
            day_of(#[trigger] next[a]),
        ) by {
            if a < prev.len() && !(joins && a == prev.len() - 1) {
                assert(next[a] == prev[a]);
                assert(has_date(rest, day_of(prev[a])));
                let i = choose|i: int| 0 <= i < rest.len() && (#[trigger] rest[i]).date == day_of(prev[a]);
                assert(entries[i] == rest[i]);
            } else {
                assert(is_day(next[a]));
                assert(next[a].last() == e);
                assert(entries[entries.len() - 1].date == day_of(next[a]));
            }
        }
        assert forall|i: int| 0 <= i < entries.len() implies has_day(
            next,
            (#[trigger] entries[i]).date,
        ) by {
            if i < rest.len() {
                assert(rest[i] == entries[i]);
                assert(has_day(prev, rest[i].date));
                let a = choose|a: int| 0 <= a < prev.len() && day_of(#[trigger] prev[a]) == rest[i].date;
                assert(is_day(prev[a]));
                assert(day_of(next[a]) == day_of(prev[a]));
            } else {
                assert(is_day(next.last()));
                assert(day_of(next[next.len() - 1]) == e.date);
            }
        }
    }
}

/// Where the entries of each date stand side by side, every date gets one
/// group and no more.
pub proof fn lemma_one_day_per_date(entries: Seq<Entry>)
    requires
        dates_contiguous(entries),
    ensures
        days_distinct(grouped(entries)),
    decreases entries.len(),
{
    if entries.len() > 0 {
        let rest = entries.drop_last();
        let e = entries.last();
        let prev = grouped(rest);
        let next = grouped(entries);
        assert(dates_contiguous(rest)) by {
            assert forall|i: int, j: int, k: int|
                0 <= i < j < k < rest.len() && rest[i].date == rest[k].date implies rest[j].date
                == rest[i].date by {
                assert(entries[i] == rest[i] && entries[j] == rest[j] && entries[k] == rest[k]);
            }
        }
        lemma_one_day_per_date(rest);
        lemma_grouped_days(rest);
        lemma_grouped_dates(rest);
        let joins = prev.len() > 0 && prev.last().len() > 0 && prev.last().last().date == e.date;
        assert forall|a: int, b: int| 0 <= a < b < next.len() implies day_of(#[trigger] next[a])
            != day_of(#[trigger] next[b]) by {
            if joins {
                assert(is_day(prev.last()));
                assert(day_of(next[a]) == day_of(prev[a]));
                assert(day_of(next[b]) == day_of(prev[b]));
            } else if b < prev.len() {
                assert(next[a] == prev[a] && next[b] == prev[b]);
            } else {
                assert(next[a] == prev[a]);
                assert(day_of(next[b]) == e.date);
                if day_of(prev[a]) == e.date {
                    assert(has_date(rest, day_of(prev[a])));
                    let i = choose|i: int| 0 <= i < rest.len() && (#[trigger] rest[i]).date == e.date;
                    let n = entries.len() as int;
                    assert(entries[i] == rest[i]);
                    assert(rest.last() == entries[n - 2]);
                    assert(entries[n - 1] == e);
                    if i < n - 2 {
                        assert(entries[n - 2].date == entries[i].date);
                    }
                    assert(prev.last().last().date == e.date);
                    assert(is_day(prev.last()));
                    assert(false);
                }
            }
        }
    }
}

/// In a sorted sequence of well-formed lines the lines of each date stand
/// side by side.
pub proof fn lemma_sorted_dates_contiguous(lines: Seq<Seq<char>>)
    requires
        sorted(lines),
        all_well_formed(lines),
    ensures
        dates_contiguous(entries_of(lines)),
{
    let entries = entries_of(lines);
    assert forall|i: int, j: int, k: int|
        0 <= i < j < k < entries.len() && entries[i].date == entries[k].date implies entries[j].date
        == entries[i].date by {
        let date = entries[i].date;
        let p = date + seq![' '];
        lemma_line_of_entry(lines[i]);
        lemma_line_of_entry(lines[k]);
        assert(well_formed(lines[j]));
        assert(lex_le(lines[i], lines[j]));
        assert(lex_le(lines[j], lines[k]));
        lemma_lex_between_prefix(p, entries[i].msg, lines[j], entries[k].msg);
        let rest = lines[j].skip(p.len() as int);
        assert(lines[j] =~= lines[j].take(p.len() as int) + rest);
        assert(lines[j] == date + seq![' '] + rest);
        lemma_entry_of_joined(date, rest);
    }
}

/// Of a sorted sequence of well-formed lines, grouping makes a partition by
/// date: every group is a day, every date of the input has its group, no
/// two groups share a date, and the groups laid end to end are the entries
/// of the input, each once and in order.
pub proof fn lemma_grouping_partition(lines: Seq<Seq<char>>)
    requires
        sorted(lines),
        all_well_formed(lines),
    ensures
        forall|a: int|
            0 <= a < grouped(entries_of(lines)).len() ==> is_day(
                #[trigger] grouped(entries_of(lines))[a],
            ),
        forall|i: int|
            0 <= i < lines.len() ==> has_day(
                grouped(entries_of(lines)),
                entry_of(#[trigger] lines[i]).date,
            ),
        days_distinct(grouped(entries_of(lines))),
        concat(grouped(entries_of(lines))) == entries_of(lines),
        concat(grouped(entries_of(lines))).to_multiset() == entries_of(lines).to_multiset(),
{
    let entries = entries_of(lines);
    lemma_sorted_dates_contiguous(lines);
    lemma_grouped_days(entries);
    lemma_grouped_dates(entries);
    lemma_one_day_per_date(entries);
    assert forall|i: int| 0 <= i < lines.len() implies has_day(
        grouped(entries),
        entry_of(#[trigger] lines[i]).date,
    ) by {
        assert(entries[i].date == entry_of(lines[i]).date);
    }
}

/// Entries of one date come in ascending order of their messages.
pub open spec fn messages_ascending(entries: Seq<Entry>) -> bool {
    forall|i: int, j: int|
        0 <= i < j < entries.len() && entries[i].date == entries[j].date ==> lex_le(
            entries[i].msg,
            entries[j].msg,
        )
}

/// Every member of a group is one of the entries.
pub proof fn lemma_group_members(entries: Seq<Entry>)
    ensures
        forall|a: int, k: int|
            0 <= a < grouped(entries).len() && 0 <= k < grouped(entries)[a].len()
                ==> entries.contains(#[trigger] grouped(entries)[a][k]),
    decreases entries.len(),
{
    if entries.len() > 0 {
        let rest = entries.drop_last();
        let e = entries.last();
        let prev = grouped(rest);
        let next = grouped(entries);
        lemma_group_members(rest);
        let joins = prev.len() > 0 && prev.last().len() > 0 && prev.last().last().date == e.date;
        assert forall|a: int, k: int|
            0 <= a < next.len() && 0 <= k < next[a].len() implies entries.contains(
            #[trigger] next[a][k],
        ) by {
            if a < prev.len() && k < prev[a].len() {
                assert(next[a][k] == prev[a][k]);
                assert(rest.contains(prev[a][k]));
                let i = choose|i: int| 0 <= i < rest.len() && rest[i] == prev[a][k];
                assert(entries[i] == rest[i]);
            } else {
                assert(next[a][k] == e);
                assert(entries[entries.len() - 1] == e);
            }
        }
    }
}

/// Where entries of one date come in ascending order of their messages,
/// the messages of every day do.
pub proof fn lemma_days_ascending(entries: Seq<Entry>)
    requires
        messages_ascending(entries),
    ensures
        forall|a: int|
            0 <= a < grouped(entries).len() ==> messages_ascending(#[trigger] grouped(entries)[a]),
    decreases entries.len(),
{
    if entries.len() > 0 {
        let rest = entries.drop_last();
        let e = entries.last();
        let prev = grouped(rest);
        let next = grouped(entries);
        let n = entries.len() as int;
        assert(messages_ascending(rest)) by {
            assert forall|i: int, j: int|
                0 <= i < j < rest.len() && rest[i].date == rest[j].date implies lex_le(
                rest[i].msg,
                rest[j].msg,
            ) by {
                assert(entries[i] == rest[i] && entries[j] == rest[j]);
            }
        }
        lemma_days_ascending(rest);
        lemma_group_members(rest);
        lemma_grouped_days(rest);
        let joins = prev.len() > 0 && prev.last().len() > 0 && prev.last().last().date == e.date;
        assert forall|a: int| 0 <= a < next.len() implies messages_ascending(#[trigger] next[a]) by {
            if joins && a == prev.len() - 1 {
                let last = prev.last();
                let grown = next[a];
                assert(messages_ascending(last));
                assert forall|i: int, j: int|
                    0 <= i < j < grown.len() && grown[i].date == grown[j].date implies lex_le(
                    grown[i].msg,
                    grown[j].msg,
                ) by {
                    assert(grown[i] == last[i]);
                    if j < last.len() {
                        assert(grown[j] == last[j]);
                    } else {
                        assert(grown[j] == e);
                        assert(rest.contains(prev[a][i]));
                        let at = choose|at: int| 0 <= at < rest.len() && rest[at] == last[i];
                        assert(entries[at] == rest[at]);
                        assert(entries[n - 1] == e);
                    }
                }
            } else if a < prev.len() {
                assert(next[a] == prev[a]);
            } else {
                assert(next[a] =~= seq![e]);
            }
        }
    }
}

} // verus!
