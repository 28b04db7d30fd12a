use timesheet::{group_days, split_line, Commit, TimesheetError};

fn texts(lines: &[&str]) -> Vec<String> {
    lines.iter().map(|t| t.to_string()).collect()
}

fn entry(date: &str, msg: &str) -> Commit {
    Commit { date: date.to_string(), msg: msg.to_string() }
}

#[test]
fn split_line_splits_at_first_space() {
    assert_eq!(split_line("2024-01-01 Write the docs"), Some(entry("2024-01-01", "Write the docs")));
}

#[test]
fn split_line_without_space_is_none() {
    assert_eq!(split_line("2024-01-01"), None);
    assert_eq!(split_line(""), None);
}

#[test]
fn split_line_edges() {
    assert_eq!(split_line(" message"), Some(entry("", "message")));
    assert_eq!(split_line("date "), Some(entry("date", "")));
    assert_eq!(split_line(" "), Some(entry("", "")));
    assert_eq!(split_line("d  m"), Some(entry("d", " m")));
}

#[test]
fn split_line_counts_characters_not_bytes() {
    assert_eq!(split_line("día café au lait"), Some(entry("día", "café au lait")));
}

#[test]
fn group_days_of_no_lines_is_empty() {
    assert_eq!(group_days(&Vec::new()), Ok(Vec::new()));
}

#[test]
fn group_days_makes_one_group_per_run() {
    let lines = texts(&["2024-01-01 a", "2024-01-01 b", "2024-01-02 c", "2024-01-03 d", "2024-01-03 e"]);
    assert_eq!(
        group_days(&lines),
        Ok(vec![
            vec![entry("2024-01-01", "a"), entry("2024-01-01", "b")],
            vec![entry("2024-01-02", "c")],
            vec![entry("2024-01-03", "d"), entry("2024-01-03", "e")],
        ])
    );
}

#[test]
fn group_days_emits_the_last_group() {
    let lines = texts(&["2024-01-01 only"]);
    assert_eq!(group_days(&lines), Ok(vec![vec![entry("2024-01-01", "only")]]));
}

#[test]
fn group_days_holds_every_entry_once_and_every_date_once() {
    let lines = texts(&["a 1", "a 2", "b 3", "c 4", "c 5", "c 6"]);
    let groups = group_days(&lines).unwrap();
    let flat: Vec<Commit> = groups.iter().flat_map(|g| g.iter().cloned()).collect();
    let all: Vec<Commit> = lines.iter().map(|l| split_line(l).unwrap()).collect();
    assert_eq!(flat, all);
    let dates: Vec<String> = groups.iter().map(|g| g[0].date.clone()).collect();
    assert_eq!(dates, texts(&["a", "b", "c"]));
    for g in groups.iter() {
        assert!(g.iter().all(|c| c.date == g[0].date));
    }
}

#[test]
fn group_days_with_empty_date_first() {
    let lines = texts(&[" x", " y", "d z"]);
    assert_eq!(
        group_days(&lines),
        Ok(vec![vec![entry("", "x"), entry("", "y")], vec![entry("d", "z")]])
    );
}

#[test]
fn group_days_fails_on_malformed_line() {
    let lines = texts(&["2024-01-01 a", "2024-01-02", "2024-01-03 c"]);
    assert_eq!(group_days(&lines), Err(TimesheetError::MalformedLine { line: 1 }));
}
