use std::path::PathBuf;
use timesheet::{digest, merge_lines, render_day, run, Commit, Opt, TimesheetError};

fn lines(texts: &[&str]) -> Vec<String> {
    texts.iter().map(|t| t.to_string()).collect()
}

fn commit(date: &str, msg: &str) -> Commit {
    Commit { date: date.to_string(), msg: msg.to_string() }
}

fn settings(dryrun: bool, verbose: bool) -> Opt {
    Opt {
        dryrun,
        gitlogfile: PathBuf::from("commits.txt"),
        macjournalfile: PathBuf::from("journal.txt"),
        outfile: None,
        verbose,
    }
}

#[test]
fn run_renders_one_line_per_day_with_versions_collapsed() {
    let git = lines(&["2024-01-02 Fix bug", "2024-01-01 v1.2.0 released", "2024-01-01 Write docs"]);
    let out = run(&settings(false, false), git, Vec::new());
    assert_eq!(
        out,
        Ok(lines(&[
            "2024-01-01 Write docs Versions v1.2.0 released built, tested, and rolled out.",
            "2024-01-02 Fix bug",
        ]))
    );
}

#[test]
fn run_merges_both_sources() {
    let git = lines(&["2024-03-02 commit b", "2024-03-01 commit a"]);
    let journal = lines(&["2024-03-01 journal z", "2024-03-03 journal y"]);
    let out = run(&settings(false, false), git, journal);
    assert_eq!(
        out,
        Ok(lines(&["2024-03-01 commit a journal z", "2024-03-02 commit b", "2024-03-03 journal y"]))
    );
}

#[test]
fn run_on_no_lines_gives_empty_digest() {
    assert_eq!(run(&settings(false, false), Vec::new(), Vec::new()), Ok(Vec::new()));
    assert_eq!(digest(&Vec::new()), Ok(Vec::new()));
}

#[test]
fn run_fails_on_line_without_space() {
    let git = lines(&["2024-01-02 Fix bug", "2024-01-01"]);
    let journal = lines(&["2024-01-03 Later"]);
    let out = run(&settings(false, false), git, journal);
    assert_eq!(out, Err(TimesheetError::MalformedLine { line: 0 }));
}

#[test]
fn digest_reports_first_malformed_line() {
    let merged = lines(&["2024-01-01 ok", "broken", "2024-01-02 ok", "alsobroken"]);
    assert_eq!(digest(&merged), Err(TimesheetError::MalformedLine { line: 1 }));
}

#[test]
fn dry_run_gives_no_digest_and_does_not_parse() {
    let git = lines(&["2024-01-02 Fix bug", "nospace"]);
    assert_eq!(run(&settings(true, false), git, Vec::new()), Ok(Vec::new()));
}

#[test]
fn verbose_run_gives_no_digest() {
    let git = lines(&["2024-01-02 Fix bug"]);
    assert_eq!(run(&settings(false, true), git, Vec::new()), Ok(Vec::new()));
}

#[test]
fn merge_sorts_whole_lines_ascending() {
    let merged = merge_lines(
        lines(&["2024-01-02 b", "2024-01-01 z"]),
        lines(&["2024-01-02 a", "2024-01-01 a"]),
    );
    assert_eq!(merged, lines(&["2024-01-01 a", "2024-01-01 z", "2024-01-02 a", "2024-01-02 b"]));
}

#[test]
fn merge_keeps_duplicates() {
    let merged = merge_lines(lines(&["2024-01-01 same", "2024-01-01 same"]), lines(&["2024-01-01 same"]));
    assert_eq!(merged, lines(&["2024-01-01 same", "2024-01-01 same", "2024-01-01 same"]));
}

#[test]
fn merge_orders_by_code_point() {
    let merged = merge_lines(lines(&["d b", "d é", "d B", "d", "d  "]), Vec::new());
    assert_eq!(merged, lines(&["d", "d  ", "d B", "d b", "d é"]));
}

#[test]
fn same_day_entries_come_by_message_ascending() {
    let git = lines(&["2024-05-05 pear", "2024-05-05 apple"]);
    let journal = lines(&["2024-05-05 mango", "2024-05-04 zebra"]);
    let out = run(&settings(false, false), git, journal);
    assert_eq!(out, Ok(lines(&["2024-05-04 zebra", "2024-05-05 apple mango pear"])));
}

#[test]
fn digest_of_unsorted_lines_keeps_runs_apart() {
    let merged = lines(&["b one", "a two", "b three"]);
    assert_eq!(digest(&merged), Ok(lines(&["b one", "a two", "b three"])));
}

#[test]
fn digest_collapses_each_day_on_its_own() {
    let merged = lines(&["d1 0.1.0", "d1 note", "d2 0.2.0", "d2 0.2.1"]);
    assert_eq!(
        digest(&merged),
        Ok(lines(&[
            "d1 note Versions 0.1.0 built, tested, and rolled out.",
            "d2 Versions 0.2.0, 0.2.1 built, tested, and rolled out.",
        ]))
    );
}

#[test]
fn render_day_joins_date_and_messages_with_spaces() {
    let day = vec![commit("2024-02-02", "first thing"), commit("2024-02-02", "second"), commit("2024-02-02", "")];
    assert_eq!(render_day(&day), "2024-02-02 first thing second ");
}

#[test]
fn render_day_of_one_entry() {
    assert_eq!(render_day(&vec![commit("d", "m")]), "d m");
}
