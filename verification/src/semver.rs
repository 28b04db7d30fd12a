//! Recognising version tags and folding a day's tags into one summary.

use vstd::prelude::*;
use vstd::string::StrSliceExecFns;
use vstd::string::StringExecFns;
use crate::entry::{Commit, Commits, Entry};
use crate::group::{is_day, messages_ascending};
use crate::text::lex_le;

verus! {

/// A decimal digit.
pub open spec fn is_digit(c: char) -> bool {
    48 <= (c as u32) <= 57
}

/// The characters of `s` from `from` up to `to` are digits, at least one.
pub open spec fn digits(s: Seq<char>, from: int, to: int) -> bool {
    from < to && forall|k: int| from <= k < to ==> is_digit(#[trigger] s[k])
}

/// A token of the shape MAJOR.MINOR.PATCH stands in `s` from `start` up to
/// `end`, with its two dots at `dot1` and `dot2`.
pub open spec fn version_at(s: Seq<char>, start: int, dot1: int, dot2: int, end: int) -> bool {
    &&& 0 <= start
    &&& end <= s.len()
    &&& digits(s, start, dot1)
    &&& s[dot1] == '.'
    &&& digits(s, dot1 + 1, dot2)
    &&& s[dot2] == '.'
    &&& digits(s, dot2 + 1, end)
}

/// A message is a version tag when a MAJOR.MINOR.PATCH token stands
/// somewhere in it.
pub open spec fn is_version_tag(msg: Seq<char>) -> bool {
    exists|start: int, dot1: int, dot2: int, end: int| version_at(msg, start, dot1, dot2, end)
}

fn is_digit_char(c: char) -> (b: bool)
    ensures
        b == is_digit(c),
{
    let v: u32 = c as u32;
    48 <= v && v <= 57
}

/// Decides whether a message is a version tag.
pub fn is_version_message(msg: &str) -> (b: bool)
    ensures
        b == is_version_tag(msg@),
{
    let n: usize = msg.unicode_len();
    let mut dot: usize = 1;
    while dot < n
        invariant
            n == msg@.len(),
            1 <= dot,
            forall|start: int, dot1: int, dot2: int, end: int|
                version_at(msg@, start, dot1, dot2, end) ==> dot1 >= dot,
        decreases n - dot,
    {
        if msg.get_char(dot) == '.' && is_digit_char(msg.get_char(dot - 1)) {
            let mut stop: usize = dot + 1;
            while stop < n && is_digit_char(msg.get_char(stop))
                invariant
                    n == msg@.len(),
                    dot < n,
                    dot + 1 <= stop <= n,
                    forall|k: int| dot + 1 <= k < stop ==> is_digit(#[trigger] msg@[k]),
                decreases n - stop,
            {
                stop = stop + 1;
            }
            if stop > dot + 1 && stop < n - 1 && msg.get_char(stop) == '.' && is_digit_char(
                msg.get_char(stop + 1),
            ) {
                assert(version_at(msg@, dot - 1, dot as int, stop as int, stop + 2));
                return true;
            } else {
                assert forall|start: int, dot2: int, end: int|
                    !version_at(msg@, start, dot as int, dot2, end) by {
                    if version_at(msg@, start, dot as int, dot2, end) {
                        if dot2 < stop {
                            assert(is_digit(msg@[dot2]));
                        } else if dot2 > stop {
                            assert(is_digit(msg@[stop as int]));
                        } else {
                            assert(is_digit(msg@[stop + 1]));
                        }
                    }
                }
            }
        } else {
            assert forall|start: int, dot2: int, end: int|
                !version_at(msg@, start, dot as int, dot2, end) by {
                if version_at(msg@, start, dot as int, dot2, end) {
                    assert(is_digit(msg@[dot - 1]));
                }
            }
        }
        dot = dot + 1;
    }
    assert forall|start: int, dot1: int, dot2: int, end: int|
        !version_at(msg@, start, dot1, dot2, end) by {
        if version_at(msg@, start, dot1, dot2, end) {
            assert(is_digit(msg@[dot2 + 1]));
        }
    }
    false
}

impl Commit {
    /// Whether this entry's message is a version tag.
    pub fn issemvertag(&self) -> (b: bool)
        ensures
            b == is_version_tag(self@.msg),
    {
        is_version_message(self.msg.as_str())
    }
}

/// For each entry, whether its message is a version tag.
pub open spec fn version_tags(entries: Seq<Entry>) -> Seq<bool> {
    Seq::new(entries.len(), |i: int| is_version_tag(entries[i].msg))
}

/// The first `n` entries without those that are tagged, in their order.
pub open spec fn others_upto(entries: Seq<Entry>, tags: Seq<bool>, n: int) -> Seq<Entry>
    decreases n,
{
    if n <= 0 {
        Seq::empty()
    } else if tags[n - 1] {
        others_upto(entries, tags, n - 1)
    } else {
        others_upto(entries, tags, n - 1).push(entries[n - 1])
    }
}

/// Those of the first `n` entries that are tagged, in their order.
pub open spec fn tagged_upto(entries: Seq<Entry>, tags: Seq<bool>, n: int) -> Seq<Entry>
    decreases n,
{
    if n <= 0 {
        Seq::empty()
    } else if tags[n - 1] {
        tagged_upto(entries, tags, n - 1).push(entries[n - 1])
    } else {
        tagged_upto(entries, tags, n - 1)
    }
}

/// The messages of the entries, joined by a comma and a space.
pub open spec fn joined(entries: Seq<Entry>) -> Seq<char>
    decreases entries.len(),
{
    if entries.len() == 0 {
        Seq::empty()
    } else if entries.len() == 1 {
        entries[0].msg
    } else {
        joined(entries.drop_last()) + ", "@ + entries.last().msg
    }
}

/// The entry that stands for the tagged entries of a day: it has the date
/// of the first of them, and its message lists their messages.
pub open spec fn summary(tagged: Seq<Entry>) -> Entry {
    Entry {
        date: tagged[0].date,
        msg: "Versions "@ + joined(tagged) + " built, tested, and rolled out."@,
    }
}

/// A day after collapsing: without tagged entries it is unchanged; else the
/// untagged entries in their order, and the summary of the tagged ones last.
pub open spec fn collapsed(entries: Seq<Entry>, tags: Seq<bool>) -> Seq<Entry> {
    let n = entries.len() as int;
    if tagged_upto(entries, tags, n).len() == 0 {
        others_upto(entries, tags, n)
    } else {
        others_upto(entries, tags, n).push(summary(tagged_upto(entries, tags, n)))
    }
}

/// `tags` is what the predicate answered, entry by entry.
pub open spec fn answers<F: Fn(&Commit) -> bool>(is_tag: F, commits: Seq<Commit>, tags: Seq<bool>) -> bool {
    tags.len() == commits.len() && forall|j: int|
        0 <= j < commits.len() ==> call_ensures(is_tag, (&#[trigger] commits[j],), tags[j])
}

/// Collapses a day by a predicate of the caller's choice, which is asked
/// once of every entry, in order.
pub fn collapse_with<F: Fn(&Commit) -> bool>(commits: Commits, is_tag: F) -> (r: Commits)
    requires
        forall|c: &Commit| call_requires(is_tag, (c,)),
    ensures
        exists|tags: Seq<bool>| #[trigger]
            answers(is_tag, commits@, tags) && r.deep_view() == collapsed(commits.deep_view(), tags),
{
    let ghost entries = commits.deep_view();
    let ghost mut tags: Seq<bool> = Seq::empty();
    let mut other: Commits = Vec::new();
    let mut date: Option<String> = None;
    let mut msg: String = String::from_str("Versions ");
    let mut i: usize = 0;
    while i < commits.len()
        invariant
            0 <= i <= commits.len(),
            entries == commits.deep_view(),
            tags.len() == i,
            forall|j: int| 0 <= j < i ==> call_ensures(is_tag, (&#[trigger] commits@[j],), tags[j]),
            forall|c: &Commit| call_requires(is_tag, (c,)),
            other.deep_view() == others_upto(entries, tags, i as int),
            date is Some <==> tagged_upto(entries, tags, i as int).len() > 0,
            date is Some ==> date.unwrap()@ == tagged_upto(entries, tags, i as int)[0].date,
            msg@ == "Versions "@ + joined(tagged_upto(entries, tags, i as int)),
        decreases commits.len() - i,
    {
        let c = &commits[i];
        let t = is_tag(c);
        let ghost before = tags;
        let ghost found = tagged_upto(entries, tags, i as int);
        let ghost kept = other.deep_view();
        proof {
            tags = tags.push(t);
            assert(entries[i as int] == c@);
            lemma_same_tags(entries, before, tags, i as int);
        }
        if t {
            match date {
                None => {
                    date = Some(c.date.clone());
                },
                Some(_) => {
                    msg.append(", ");
                },
            }
            msg.append(c.msg.as_str());
            proof {
                let next = found.push(entries[i as int]);
                assert(tagged_upto(entries, tags, i + 1) == next);
                assert(next.drop_last() =~= found);
                assert(msg@ =~= "Versions "@ + joined(next));
            }
        } else {
            other.push(c.clone());
            assert(other.deep_view() =~= kept.push(entries[i as int]));
        }
        i = i + 1;
    }
    match date {
        None => {},
        Some(day) => {
            msg.append(" built, tested, and rolled out.");
            let ghost kept = other.deep_view();
            let ghost found = tagged_upto(entries, tags, i as int);
            assert(msg@ =~= summary(found).msg);
            let last = Commit { date: day, msg };
            other.push(last);
            assert(other.deep_view() =~= kept.push(summary(found)));
        },
    }
    assert(answers(is_tag, commits@, tags));
    other
}

/// Collapses a day: its version-tag entries are replaced by one summary,
/// which comes last; the other entries keep their places among themselves.
/// A day without version tags comes back as it was.
pub fn semvercommits(commits: Commits) -> (r: Commits)
    ensures
        r.deep_view() == collapsed(commits.deep_view(), version_tags(commits.deep_view())),
        is_day(commits.deep_view()) ==> is_day(r.deep_view()),
{
    let ghost entries = commits.deep_view();
    let r = collapse_with(commits, Commit::issemvertag);
    proof {
        let tags = choose|tags: Seq<bool>| #[trigger]
            answers(Commit::issemvertag, commits@, tags) && r.deep_view() == collapsed(
                entries,
                tags,
            );
        assert forall|j: int| 0 <= j < tags.len() implies tags[j] == version_tags(entries)[j] by {
            assert(call_ensures(Commit::issemvertag, (&commits@[j],), tags[j]));
        }
        assert(tags =~= version_tags(entries));
        if is_day(entries) {
            lemma_collapsed_day(entries, tags);
        }
    }
    r
}

/// What lies beyond the first `n` tags has no part in the first `n` entries.
pub proof fn lemma_same_tags(entries: Seq<Entry>, a: Seq<bool>, b: Seq<bool>, n: int)
    requires
        n <= a.len(),
        n <= b.len(),
        forall|j: int| 0 <= j < n ==> a[j] == b[j],
    ensures
        others_upto(entries, a, n) == others_upto(entries, b, n),
        tagged_upto(entries, a, n) == tagged_upto(entries, b, n),
    decreases n,
{
    if n > 0 {
        lemma_same_tags(entries, a, b, n - 1);
    }
}

/// How many of the first `n` entries are not tagged.
pub open spec fn untagged_before(tags: Seq<bool>, n: int) -> int
    decreases n,
{
    if n <= 0 {
        0
    } else if tags[n - 1] {
        untagged_before(tags, n - 1)
    } else {
        untagged_before(tags, n - 1) + 1
    }
}

/// How many of the first `n` entries are tagged.
pub open spec fn tagged_before(tags: Seq<bool>, n: int) -> int
    decreases n,
{
    if n <= 0 {
        0
    } else if tags[n - 1] {
        tagged_before(tags, n - 1) + 1
    } else {
        tagged_before(tags, n - 1)
    }
}

/// The two parts of a day have as many entries as were tagged and as were
/// not, and together as many as the day.
pub proof fn lemma_parts_len(entries: Seq<Entry>, tags: Seq<bool>, n: int)
    requires
        0 <= n,
    ensures
        others_upto(entries, tags, n).len() == untagged_before(tags, n),
        tagged_upto(entries, tags, n).len() == tagged_before(tags, n),
        untagged_before(tags, n) + tagged_before(tags, n) == n,
        0 <= untagged_before(tags, n),
        0 <= tagged_before(tags, n),
    decreases n,
{
    if n > 0 {
        lemma_parts_len(entries, tags, n - 1);
    }
}

/// A day without tagged entries is what it was after collapsing, entry
/// for entry and in order.
pub proof fn lemma_collapse_untagged(entries: Seq<Entry>, tags: Seq<bool>)
    requires
        tags.len() == entries.len(),
        forall|i: int| 0 <= i < tags.len() ==> !tags[i],
    ensures
        collapsed(entries, tags) == entries,
{
    lemma_untagged_prefix(entries, tags, entries.len() as int);
    assert(entries.take(entries.len() as int) =~= entries);
}

proof fn lemma_untagged_prefix(entries: Seq<Entry>, tags: Seq<bool>, n: int)
    requires
        0 <= n <= entries.len(),
        tags.len() == entries.len(),
        forall|i: int| 0 <= i < tags.len() ==> !tags[i],
    ensures
        others_upto(entries, tags, n) == entries.take(n),
        tagged_upto(entries, tags, n).len() == 0,
    decreases n,
{
    if n > 0 {
        lemma_untagged_prefix(entries, tags, n - 1);
        assert(entries.take(n - 1).push(entries[n - 1]) =~= entries.take(n));
    } else {
        assert(entries.take(0) =~= Seq::empty());
    }
}

/// A day with at least one tagged entry has, after collapsing, one entry
/// more than it had untagged entries, however many were tagged; and the
/// last of them is the summary.
pub proof fn lemma_collapse_length(entries: Seq<Entry>, tags: Seq<bool>)
    requires
        tags.len() == entries.len(),
        tagged_before(tags, tags.len() as int) >= 1,
    ensures
        collapsed(entries, tags).len() == untagged_before(tags, tags.len() as int) + 1,
        collapsed(entries, tags).last() == summary(
            tagged_upto(entries, tags, entries.len() as int),
        ),
{
    lemma_parts_len(entries, tags, entries.len() as int);
}

/// Collapsing keeps the untagged entries in their order: the entry at `i`
/// stands after collapsing at the position that counts the untagged
/// entries before it, and an untagged entry further on stands further on.
pub proof fn lemma_collapse_keeps_order(entries: Seq<Entry>, tags: Seq<bool>, i: int, j: int)
    requires
        tags.len() == entries.len(),
        0 <= i < j < entries.len(),
        !tags[i],
        !tags[j],
    ensures
        0 <= untagged_before(tags, i) < untagged_before(tags, j) < untagged_before(
            tags,
            tags.len() as int,
        ),
        collapsed(entries, tags)[untagged_before(tags, i)] == entries[i],
        collapsed(entries, tags)[untagged_before(tags, j)] == entries[j],
{
    let n = entries.len() as int;
    let others = others_upto(entries, tags, n);
    lemma_parts_len(entries, tags, n);
    lemma_other_place(entries, tags, n, i);
    lemma_other_place(entries, tags, n, j);
    lemma_other_place(entries, tags, j, i);
    assert(collapsed(entries, tags)[untagged_before(tags, i)] == others[untagged_before(tags, i)]);
    assert(collapsed(entries, tags)[untagged_before(tags, j)] == others[untagged_before(tags, j)]);
}

/// Where an untagged entry stands among the untagged of the first `n`.
pub proof fn lemma_other_place(entries: Seq<Entry>, tags: Seq<bool>, n: int, i: int)
    requires
        tags.len() == entries.len(),
        0 <= i < n <= entries.len(),
        !tags[i],
    ensures
        0 <= untagged_before(tags, i) < untagged_before(tags, n),
        others_upto(entries, tags, n)[untagged_before(tags, i)] == entries[i],
    decreases n,
{
    lemma_parts_len(entries, tags, i);
    lemma_parts_len(entries, tags, n - 1);
    if i < n - 1 {
        lemma_other_place(entries, tags, n - 1, i);
    }
}

/// Collapsing a day gives a day of the same date.
pub proof fn lemma_collapsed_day(entries: Seq<Entry>, tags: Seq<bool>)
    requires
        tags.len() == entries.len(),
        is_day(entries),
    ensures
        is_day(collapsed(entries, tags)),
        collapsed(entries, tags)[0].date == entries[0].date,
{
    let n = entries.len() as int;
    lemma_parts_len(entries, tags, n);
    lemma_parts_dates(entries, tags, n);
    let folded = collapsed(entries, tags);
    assert forall|k: int| 0 <= k < folded.len() implies (#[trigger] folded[k]).date
        == entries[0].date by {
        if k < others_upto(entries, tags, n).len() {
            assert(folded[k] == others_upto(entries, tags, n)[k]);
        } else {
            assert(folded[k].date == tagged_upto(entries, tags, n)[0].date);
        }
    }
}

proof fn lemma_parts_dates(entries: Seq<Entry>, tags: Seq<bool>, n: int)
    requires
        tags.len() == entries.len(),
        0 <= n <= entries.len(),
        forall|k: int| 0 <= k < entries.len() ==> (#[trigger] entries[k]).date == entries[0].date,
    ensures
        forall|k: int|
            0 <= k < others_upto(entries, tags, n).len() ==> (#[trigger] others_upto(
                entries,
                tags,
                n,
            )[k]).date == entries[0].date,
        forall|k: int|
            0 <= k < tagged_upto(entries, tags, n).len() ==> (#[trigger] tagged_upto(
                entries,
                tags,
                n,
            )[k]).date == entries[0].date,
    decreases n,
{
    if n > 0 {
        lemma_parts_dates(entries, tags, n - 1);
        assert(entries[n - 1].date == entries[0].date);
        let others = others_upto(entries, tags, n);
        let before = others_upto(entries, tags, n - 1);
        assert forall|k: int| 0 <= k < others.len() implies (#[trigger] others[k]).date
            == entries[0].date by {
            if k < before.len() {
                assert(others[k] == before[k]);
            }
        }
        let found = tagged_upto(entries, tags, n);
        let sofar = tagged_upto(entries, tags, n - 1);
        assert forall|k: int| 0 <= k < found.len() implies (#[trigger] found[k]).date
            == entries[0].date by {
            if k < sofar.len() {
                assert(found[k] == sofar[k]);
            }
        }
    }
}

/// The count of untagged entries does not go down along the day.
pub proof fn lemma_untagged_monotone(tags: Seq<bool>, a: int, b: int)
    requires
        0 <= a <= b,
    ensures
        untagged_before(tags, a) <= untagged_before(tags, b),
    decreases b,
{
    if a < b {
        lemma_untagged_monotone(tags, a, b - 1);
    }
}

/// Every entry among the untagged of the first `n` is an untagged entry of
/// the day, and stands where the count of those before it says.
pub proof fn lemma_other_origin(entries: Seq<Entry>, tags: Seq<bool>, n: int, p: int) -> (i: int)
    requires
        tags.len() == entries.len(),
        0 <= n <= entries.len(),
        0 <= p < others_upto(entries, tags, n).len(),
    ensures
        0 <= i < n,
        !tags[i],
        untagged_before(tags, i) == p,
        entries[i] == others_upto(entries, tags, n)[p],
    decreases n,
{
    lemma_parts_len(entries, tags, n - 1);
    if !tags[n - 1] && p == others_upto(entries, tags, n - 1).len() {
        n - 1
    } else {
        lemma_other_origin(entries, tags, n - 1, p)
    }
}

/// Where the messages of a day come in ascending order, those of its
/// untagged entries still do after collapsing.
pub proof fn lemma_collapse_keeps_ascending(entries: Seq<Entry>, tags: Seq<bool>, p: int, q: int)
    requires
        tags.len() == entries.len(),
        messages_ascending(entries),
        0 <= p < q < untagged_before(tags, tags.len() as int),
        collapsed(entries, tags)[p].date == collapsed(entries, tags)[q].date,
    ensures
        entries.contains(collapsed(entries, tags)[p]),
        entries.contains(collapsed(entries, tags)[q]),
        lex_le(collapsed(entries, tags)[p].msg, collapsed(entries, tags)[q].msg),
{
    let n = entries.len() as int;
    lemma_parts_len(entries, tags, n);
    let i = lemma_other_origin(entries, tags, n, p);
    let j = lemma_other_origin(entries, tags, n, q);
    if j <= i {
        lemma_untagged_monotone(tags, j, i);
    }
    assert(collapsed(entries, tags)[p] == entries[i]);
    assert(collapsed(entries, tags)[q] == entries[j]);
}

} // verus!
