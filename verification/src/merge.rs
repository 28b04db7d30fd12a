//! Merging the lines of all sources into one ordered sequence.

use vstd::prelude::*;
use crate::entry::{all_well_formed, entries_of, entry_of, lemma_line_of_entry, well_formed};
use crate::group::messages_ascending;
use crate::text::{
    lemma_lex_antisymmetric, lemma_lex_common_prefix, lemma_lex_reflexive, lemma_lex_total,
    lemma_lex_transitive, lex_le, sorted,
};
use vstd::relations::{sorted_by, total_ordering};
use vstd::seq_lib::lemma_sorted_unique;

verus! {

/// `merged` holds the lines of `lines`, each as often as it occurs there, in
/// ascending order. Nothing is dropped and duplicates stay.
pub open spec fn is_merge_of(merged: Seq<Seq<char>>, lines: Seq<Seq<char>>) -> bool {
    sorted(merged) && merged.to_multiset() == lines.to_multiset()
}

/// Calls `sort` of the standard library on the lines. Trusted: afterwards
/// the vector holds the same lines, each as often as before, in ascending
/// lexicographic order of their code points, which is the order that the
/// standard library documents for strings.
#[verifier::external_body]
fn sort_lines(lines: &mut Vec<String>)
    ensures
        is_merge_of(final(lines).deep_view(), old(lines).deep_view()),
{
    lines.sort();
}

/// Concatenates the lines of the two sources and sorts them by their whole
/// text, so that days come in ascending order of their date token and the
/// lines of one day in ascending order of their messages.
pub fn merge_lines(gitlines: Vec<String>, journallines: Vec<String>) -> (merged: Vec<String>)
    ensures
        is_merge_of(merged.deep_view(), gitlines.deep_view() + journallines.deep_view()),
{
    let mut all = gitlines;
    let mut rest = journallines;
    all.append(&mut rest);
    assert(all.deep_view() =~= gitlines.deep_view() + journallines.deep_view());
    sort_lines(&mut all);
    all
}

/// In a sorted sequence, two well-formed lines of the same date stand in
/// ascending order of their messages.
pub proof fn lemma_same_date_by_message(lines: Seq<Seq<char>>, i: int, j: int)
    requires
        sorted(lines),
        0 <= i < j < lines.len(),
        well_formed(lines[i]),
        well_formed(lines[j]),
        entry_of(lines[i]).date == entry_of(lines[j]).date,
    ensures
        lex_le(entry_of(lines[i]).msg, entry_of(lines[j]).msg),
{
    let a = entry_of(lines[i]);
    let b = entry_of(lines[j]);
    lemma_line_of_entry(lines[i]);
    lemma_line_of_entry(lines[j]);
    assert(lex_le(lines[i], lines[j]));
    lemma_lex_common_prefix(a.date + seq![' '], a.msg, b.msg);
}

/// In a sorted sequence of well-formed lines, entries of one date come in
/// ascending order of their messages.
pub proof fn lemma_sorted_messages_ascending(lines: Seq<Seq<char>>)
    requires
        sorted(lines),
        all_well_formed(lines),
    ensures
        messages_ascending(entries_of(lines)),
{
    let entries = entries_of(lines);
    assert forall|i: int, j: int|
        0 <= i < j < entries.len() && entries[i].date == entries[j].date implies lex_le(
        entries[i].msg,
        entries[j].msg,
    ) by {
        assert(well_formed(lines[i]));
        assert(well_formed(lines[j]));
        lemma_same_date_by_message(lines, i, j);
    }
}

/// The lines of the sources have one merge and no other: two sequences
/// that both are a merge of the same lines are equal.
pub proof fn lemma_merge_unique(first: Seq<Seq<char>>, second: Seq<Seq<char>>, lines: Seq<Seq<char>>)
    requires
        is_merge_of(first, lines),
        is_merge_of(second, lines),
    ensures
        first == second,
{
    let leq = |a: Seq<char>, b: Seq<char>| lex_le(a, b);
    assert(total_ordering(leq)) by {
        assert forall|a: Seq<char>| #[trigger] leq(a, a) by {
            lemma_lex_reflexive(a);
        }
        assert forall|a: Seq<char>, b: Seq<char>| #[trigger] leq(a, b) && #[trigger] leq(b, a) implies a
            == b by {
            lemma_lex_antisymmetric(a, b);
        }
        assert forall|a: Seq<char>, b: Seq<char>, c: Seq<char>| #[trigger]
            leq(a, b) && #[trigger] leq(b, c) implies leq(a, c) by {
            lemma_lex_transitive(a, b, c);
        }
        assert forall|a: Seq<char>, b: Seq<char>| #[trigger] leq(a, b) || #[trigger] leq(b, a) by {
            lemma_lex_total(a, b);
        }
    }
    assert(sorted_by(first, leq));
    assert(sorted_by(second, leq));
    lemma_sorted_unique(first, second, leq);
}

} // verus!
