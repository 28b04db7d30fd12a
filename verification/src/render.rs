//! Rendering days as lines of text, and the whole run from lines to digest.

use vstd::prelude::*;
use vstd::string::StringExecFns;
use crate::entry::{all_well_formed, entries_of, first_malformed, Commits, Entry, TimesheetError};
use crate::options::Opt;
use crate::group::{group_days, grouped, is_day, lemma_days_ascending, lemma_grouped_days};
use crate::merge::{is_merge_of, lemma_sorted_messages_ascending, merge_lines};
use crate::semver::{
    collapsed, lemma_collapse_keeps_ascending, lemma_collapsed_day, lemma_parts_len, semvercommits,
    untagged_before, version_tags,
};
use crate::text::{lex_le, sorted};

verus! {

/// The messages of the first `n` entries, each with a space before it.
pub open spec fn messages_upto(day: Seq<Entry>, n: int) -> Seq<char>
    decreases n,
{
    if n <= 0 {
        Seq::empty()
    } else {
        messages_upto(day, n - 1) + " "@ + day[n - 1].msg
    }
}

/// The line of a day: the date of its first entry, then every message in
/// order, each with a space before it.
pub open spec fn rendered(day: Seq<Entry>) -> Seq<char> {
    day[0].date + messages_upto(day, day.len() as int)
}

/// The digest of a sequence of entries: they are grouped into days, each
/// day is collapsed by the version tags, and rendered as one line.
pub open spec fn digest_of(entries: Seq<Entry>) -> Seq<Seq<char>> {
    Seq::new(
        grouped(entries).len(),
        |a: int| rendered(collapsed(grouped(entries)[a], version_tags(grouped(entries)[a]))),
    )
}

/// Renders one day as one line. The day is not empty.
pub fn render_day(day: &Commits) -> (out: String)
    requires
        day.len() > 0,
    ensures
        out@ == rendered(day.deep_view()),
{
    let ghost entries = day.deep_view();
    let mut out: String = day[0].date.clone();
    let mut i: usize = 0;
    assert(out@ =~= entries[0].date + messages_upto(entries, 0));
    while i < day.len()
        invariant
            0 <= i <= day.len(),
            entries == day.deep_view(),
            out@ == entries[0].date + messages_upto(entries, i as int),
        decreases day.len() - i,
    {
        out.append(" ");
        out.append(day[i].msg.as_str());
        assert(entries[i as int].msg == day[i as int].msg@);
        assert(out@ =~= entries[0].date + messages_upto(entries, i + 1));
        i = i + 1;
    }
    out
}

/// `r` is what the digest of `lines` comes to: the lines of the digest, or
/// the first line that is not well formed.
pub open spec fn is_digest(r: Result<Vec<String>, TimesheetError>, lines: Seq<Seq<char>>) -> bool {
    match r {
        Ok(out) => all_well_formed(lines) && out.deep_view() == digest_of(entries_of(lines)),
        Err(TimesheetError::MalformedLine { line }) => first_malformed(lines, line as int),
    }
}

/// The digest of a merged sequence of lines: one line per day, in the order
/// of the days.
///
/// Fails on the first line without a space, and only then. Either the whole
/// digest comes back or none of it. No lines give an empty digest.
pub fn digest(lines: &Vec<String>) -> (r: Result<Vec<String>, TimesheetError>)
    ensures
        is_digest(r, lines.deep_view()),
{
    let ghost entries = entries_of(lines.deep_view());
    let days = match group_days(lines) {
        Ok(days) => days,
        Err(e) => {
            return Err(e);
        },
    };
    let mut out: Vec<String> = Vec::new();
    let mut a: usize = 0;
    while a < days.len()
        invariant
            0 <= a <= days.len(),
            days.deep_view() == grouped(entries),
            forall|k: int| 0 <= k < days.len() ==> is_day(#[trigger] days.deep_view()[k]),
            out.len() == a,
            forall|k: int| 0 <= k < a ==> (#[trigger] out[k])@ == digest_of(entries)[k],
        decreases days.len() - a,
    {
        assert(days.deep_view()[a as int] == days[a as int].deep_view());
        assert(is_day(days.deep_view()[a as int]));
        let folded = semvercommits(days[a].clone());
        let line = render_day(&folded);
        out.push(line);
        a = a + 1;
    }
    assert(out.deep_view() =~= digest_of(entries));
    Ok(out)
}

/// A whole run on the lines of the two sources.
///
/// A verbose run and a dry run give no digest: the first reports its
/// settings only, the second stops when the lines are merged. Any other run
/// merges the lines and gives their digest, or fails on the first merged
/// line without a space.
pub fn run(opt: &Opt, gitlines: Vec<String>, journallines: Vec<String>) -> (r: Result<
    Vec<String>,
    TimesheetError,
>)
    ensures
        opt.verbose || opt.dryrun ==> r is Ok && r.unwrap().len() == 0,
        !opt.verbose && !opt.dryrun ==> exists|merged: Seq<Seq<char>>| #[trigger]
            is_merge_of(merged, gitlines.deep_view() + journallines.deep_view()) && is_digest(
                r,
                merged,
            ),
{
    if opt.verbose {
        return Ok(Vec::new());
    }
    let merged = merge_lines(gitlines, journallines);
    if opt.dryrun {
        return Ok(Vec::new());
    }
    digest(&merged)
}

/// In the digest of a sorted sequence of well-formed lines, the entries of
/// a day that were lines of the input come in ascending order of their
/// messages: `p` and `q` are two places of the collapsed day before its
/// summary.
pub proof fn lemma_digest_ties_by_message(lines: Seq<Seq<char>>, a: int, p: int, q: int)
    requires
        sorted(lines),
        all_well_formed(lines),
        0 <= a < grouped(entries_of(lines)).len(),
        0 <= p < q < untagged_before(
            version_tags(grouped(entries_of(lines))[a]),
            grouped(entries_of(lines))[a].len() as int,
        ),
    ensures
        lex_le(
            collapsed(grouped(entries_of(lines))[a], version_tags(grouped(entries_of(lines))[a]))[p].msg,
            collapsed(grouped(entries_of(lines))[a], version_tags(grouped(entries_of(lines))[a]))[q].msg,
        ),
{
    let entries = entries_of(lines);
    let day = grouped(entries)[a];
    let tags = version_tags(day);
    lemma_sorted_messages_ascending(lines);
    lemma_days_ascending(entries);
    lemma_grouped_days(entries);
    assert(is_day(day));
    lemma_collapsed_day(day, tags);
    lemma_parts_len(day, tags, day.len() as int);
    lemma_collapse_keeps_ascending(day, tags, p, q);
}

} // verus!
