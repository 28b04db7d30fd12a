//! Dated messages and the lines they are read from.

use vstd::prelude::*;
use vstd::string::StrSliceExecFns;
use vstd::string::StringExecFns;

verus! {

/// What an entry is: the date token and the message, as text.
pub struct Entry {
    pub date: Seq<char>,
    pub msg: Seq<char>,
}

/// One dated message.
#[derive(Debug, PartialEq, Eq)]
pub struct Commit {
    pub date: String,
    pub msg: String,
}

/// The entries of one day, in order.
pub type Commits = Vec<Commit>;

/// Why a run was abandoned.
#[derive(Debug, PartialEq, Eq)]
pub enum TimesheetError {
    /// The line at this position of the merged sequence has no space between
    /// date and message.
    MalformedLine { line: usize },
}

impl View for Commit {
    type V = Entry;

    open spec fn view(&self) -> Entry {
        Entry { date: self.date@, msg: self.msg@ }
    }
}

impl DeepView for Commit {
    type V = Entry;

    open spec fn deep_view(&self) -> Entry {
        self@
    }
}

impl Clone for Commit {
    fn clone(&self) -> (c: Commit)
        ensures
            c@ == self@,
    {
        Commit { date: self.date.clone(), msg: self.msg.clone() }
    }
}

/// The position of the first space of `line`, or its length if it has none.
pub open spec fn first_space(line: Seq<char>) -> int
    decreases line.len(),
{
    if line.len() == 0 {
        0
    } else if line[0] == ' ' {
        0
    } else {
        1 + first_space(line.drop_first())
    }
}

/// A line is well formed when a space separates its date from its message.
pub open spec fn well_formed(line: Seq<char>) -> bool {
    first_space(line) < line.len()
}

/// The entry that a well-formed line stands for: the date is what precedes
/// the first space, the message all that follows it.
pub open spec fn entry_of(line: Seq<char>) -> Entry {
    Entry { date: line.take(first_space(line)), msg: line.skip(first_space(line) + 1) }
}

/// The entries of a sequence of lines, line by line.
pub open spec fn entries_of(lines: Seq<Seq<char>>) -> Seq<Entry> {
    Seq::new(lines.len(), |i: int| entry_of(lines[i]))
}

/// Every line of the sequence is well formed.
pub open spec fn all_well_formed(lines: Seq<Seq<char>>) -> bool {
    forall|i: int| 0 <= i < lines.len() ==> well_formed(#[trigger] lines[i])
}

/// The line at `line` is the first that is not well formed.
pub open spec fn first_malformed(lines: Seq<Seq<char>>, line: int) -> bool {
    &&& 0 <= line < lines.len()
    &&& !well_formed(lines[line])
    &&& forall|j: int| 0 <= j < line ==> well_formed(#[trigger] lines[j])
}

/// `first_space` finds a space, and no space stands before it.
pub proof fn lemma_first_space(line: Seq<char>)
    ensures
        0 <= first_space(line) <= line.len(),
        forall|j: int| 0 <= j < first_space(line) ==> line[j] != ' ',
        first_space(line) < line.len() ==> line[first_space(line)] == ' ',
    decreases line.len(),
{
    if line.len() > 0 && line[0] != ' ' {
        let rest = line.drop_first();
        lemma_first_space(rest);
        assert forall|j: int| 0 <= j < first_space(line) implies line[j] != ' ' by {
            if j > 0 {
                assert(rest[j - 1] == line[j]);
            }
        }
    }
}

/// A line is well formed exactly when it is a date without a space, one
/// space, and a message; and then it stands for that date and message.
pub proof fn lemma_entry_of_joined(date: Seq<char>, msg: Seq<char>)
    requires
        !date.contains(' '),
    ensures
        well_formed(date + seq![' '] + msg),
        entry_of(date + seq![' '] + msg) == (Entry { date, msg }),
{
    let line = date + seq![' '] + msg;
    lemma_first_space(line);
    let k = first_space(line);
    if k < date.len() {
        assert(line[k] == date[k]);
        assert(date.contains(date[k]));
    } else if k > date.len() {
        assert(line[date.len() as int] == ' ');
    }
    assert(line.take(k) =~= date);
    assert(line.skip(k + 1) =~= msg);
}

/// A well-formed line is its date, a space, and its message.
pub proof fn lemma_line_of_entry(line: Seq<char>)
    requires
        well_formed(line),
    ensures
        line == entry_of(line).date + seq![' '] + entry_of(line).msg,
        !entry_of(line).date.contains(' '),
{
    lemma_first_space(line);
    let e = entry_of(line);
    assert(line =~= e.date + seq![' '] + e.msg);
}

/// Splits a line at its first space into date and message.
///
/// Returns `None` exactly when the line holds no space.
pub fn split_line(line: &str) -> (r: Option<Commit>)
    ensures
        r is Some <==> well_formed(line@),
        r is Some ==> r.unwrap()@ == entry_of(line@),
{
    let n: usize = line.unicode_len();
    let mut k: usize = 0;
    proof {
        lemma_first_space(line@);
    }
    while k < n && line.get_char(k) != ' '
        invariant
            n == line@.len(),
            0 <= k <= n,
            forall|j: int| 0 <= j < k ==> line@[j] != ' ',
        decreases n - k,
    {
        k = k + 1;
    }
    if k < n {
        let date = String::from_str(line.substring_char(0, k));
        let msg = String::from_str(line.substring_char(k + 1, n));
        proof {
            assert(k == first_space(line@));
            assert(line@.subrange(0, k as int) =~= line@.take(k as int));
            assert(line@.subrange(k + 1, n as int) =~= line@.skip(k + 1));
        }
        Some(Commit { date, msg })
    } else {
        None
    }
}

} // verus!
