use timesheet::{collapse_with, find_config_file, is_version_message, semvercommits, Commit, ConfigSearch};

fn day(date: &str, msgs: &[&str]) -> Vec<Commit> {
    msgs.iter().map(|m| Commit { date: date.to_string(), msg: m.to_string() }).collect()
}

#[test]
fn two_versions_collapse_into_one_summary() {
    let out = semvercommits(day("2024-01-01", &["1.0.0", "1.0.1"]));
    assert_eq!(out, day("2024-01-01", &["Versions 1.0.0, 1.0.1 built, tested, and rolled out."]));
}

#[test]
fn day_without_versions_is_unchanged() {
    let input = day("2024-01-01", &["Write docs", "Fix bug", "Release 1.0 notes"]);
    assert_eq!(semvercommits(input.clone()), input);
}

#[test]
fn empty_day_is_unchanged() {
    assert_eq!(semvercommits(Vec::new()), Vec::new());
}

#[test]
fn collapsed_day_has_others_plus_one() {
    let out = semvercommits(day("d", &["a", "1.0.0", "b", "2.0.0", "3.0.0", "c"]));
    assert_eq!(out.len(), 4);
    assert_eq!(out, day("d", &["a", "b", "c", "Versions 1.0.0, 2.0.0, 3.0.0 built, tested, and rolled out."]));
}

#[test]
fn others_keep_their_order() {
    let out = semvercommits(day("d", &["zulu", "0.0.1", "alpha", "mike"]));
    assert_eq!(out, day("d", &["zulu", "alpha", "mike", "Versions 0.0.1 built, tested, and rolled out."]));
}

#[test]
fn summary_takes_the_date_of_the_first_version() {
    let input = vec![
        Commit { date: "d1".to_string(), msg: "note".to_string() },
        Commit { date: "d2".to_string(), msg: "v2.0.0".to_string() },
        Commit { date: "d3".to_string(), msg: "v3.0.0".to_string() },
    ];
    let out = semvercommits(input);
    assert_eq!(out[1].date, "d2");
    assert_eq!(out[1].msg, "Versions v2.0.0, v3.0.0 built, tested, and rolled out.");
}

#[test]
fn version_messages_are_recognised() {
    assert!(is_version_message("1.0.0"));
    assert!(is_version_message("v1.2.0 released"));
    assert!(is_version_message("Tagged 10.20.30"));
    assert!(is_version_message("x1.22.333y"));
    assert!(is_version_message("1.2.x then 3.4.5"));
    assert!(is_version_message("1.2.3.4"));
    assert!(is_version_message("é 0.0.0"));
}

#[test]
fn other_messages_are_not_versions() {
    assert!(!is_version_message(""));
    assert!(!is_version_message("Fix bug"));
    assert!(!is_version_message("Write docs"));
    assert!(!is_version_message("1.0"));
    assert!(!is_version_message("1..0"));
    assert!(!is_version_message("1.2."));
    assert!(!is_version_message(".1.2"));
    assert!(!is_version_message("a.b.c"));
    assert!(!is_version_message("1.2 .3"));
    assert!(!is_version_message("1.x.3"));
    assert!(!is_version_message(".."));
}

#[test]
fn issemvertag_reads_the_message_only() {
    assert!(Commit { date: "d".to_string(), msg: "1.2.3".to_string() }.issemvertag());
    assert!(!Commit { date: "1.2.3".to_string(), msg: "d".to_string() }.issemvertag());
}

#[test]
fn collapse_with_takes_the_callers_predicate() {
    let input = day("d", &["release: one", "chore", "release: two"]);
    let out = collapse_with(input, |c: &Commit| c.msg.starts_with("release"));
    assert_eq!(out, day("d", &["chore", "Versions release: one, release: two built, tested, and rolled out."]));
}

#[test]
fn collapse_with_all_tagged_or_none() {
    let input = day("d", &["a", "b"]);
    assert_eq!(collapse_with(input.clone(), |_c: &Commit| false), input);
    assert_eq!(
        collapse_with(input, |_c: &Commit| true),
        day("d", &["Versions a, b built, tested, and rolled out."])
    );
}

#[test]
fn config_search_ends_where_the_file_is() {
    assert_eq!(find_config_file(3, 0, true), ConfigSearch::Found(0));
    assert_eq!(find_config_file(3, 2, true), ConfigSearch::Found(2));
}

#[test]
fn config_search_goes_up_to_the_root() {
    assert_eq!(find_config_file(3, 0, false), ConfigSearch::Probe(1));
    assert_eq!(find_config_file(3, 1, false), ConfigSearch::Probe(2));
    assert_eq!(find_config_file(3, 2, false), ConfigSearch::Missing);
    assert_eq!(find_config_file(1, 0, false), ConfigSearch::Missing);
    assert_eq!(find_config_file(0, 0, false), ConfigSearch::Missing);
}
