use gitjournal::model::{JournalEntry, RawCommit};
use gitjournal::parser::captures;
use gitjournal::time::Timestamp;

fn ts(year: i32, month: u32, day: u32, hour: u32, minute: u32, second: u32) -> Timestamp {
    Timestamp { year, month, day, hour, minute, second }
}

fn commit(message: &str) -> RawCommit {
    RawCommit {
        id: String::from("abcd"),
        message: String::from(message),
        author_date: ts(2024, 11, 22, 10, 0, 0),
        url: Some(String::from("https://github.com/")),
    }
}

#[test]
fn convert() {
    let repo_commit = commit("Initial commit\n5h10m-DONE-#4\nnice to have\nthis feature");
    let converted = JournalEntry::from(&repo_commit).unwrap();
    assert_eq!(converted.id, "abcd");
}

#[test]
fn special_infos_line_regex() {
    let caps = captures("5h10m-WIP-#1").expect("cannot get captures");
    assert_eq!(caps.hours.unwrap(), "5");
    assert_eq!(caps.minutes.unwrap(), "10");
    assert_eq!(caps.status.unwrap(), "WIP");
    assert_eq!(caps.reference.unwrap(), "#1");

    let caps = captures("55m-DONE").expect("cannot get captures");
    assert_eq!(caps.hours, None);
    assert_eq!(caps.minutes.unwrap(), "55");
    assert_eq!(caps.status.unwrap(), "DONE");
    assert_eq!(caps.reference, None);

    let caps = captures("55m-25.09.2014").expect("cannot get captures");
    assert_eq!(caps.minutes.unwrap(), "55");
    assert_eq!(caps.date.unwrap(), "25.09.2014");

    let caps = captures("nice to have");
    assert!(caps.is_none(), "nice to have shouldnt be captured");

    let buggy = "[4h]";
    let caps = captures(buggy).expect(format!("cannot get captures for {}", buggy).as_str());
    assert_eq!(caps.hours.unwrap(), "4");
}

#[test]
fn annotation_round_trip() {
    let repo_commit = commit("Initial commit\n5h10m-DONE-#4\nnice to have\nthis feature");
    let e = JournalEntry::from(&repo_commit).unwrap();
    assert_eq!(e.summary, "Initial commit");
    assert_eq!(e.duration, 310);
    assert_eq!(e.reference.as_deref(), Some("#4"));
    assert!(e.description.contains("nice to have"));
    assert!(e.description.contains("this feature"));
    assert!(!e.description.contains("5h10m"));
    assert!(e.description.ends_with(" [done]"));
    assert_eq!(e.date, ts(2024, 11, 22, 10, 0, 0));
    assert_eq!(e.commit_url.as_deref(), Some("https://github.com/"));
}

#[test]
fn minutes_only_annotation() {
    let e = JournalEntry::from(&commit("fix\n55m-DONE")).unwrap();
    assert_eq!(e.duration, 55);
    assert!(e.description.ends_with(" [done]"));
}

#[test]
fn explicit_date_annotation() {
    let e = JournalEntry::from(&commit("fix\n55m-25.09.2014")).unwrap();
    assert_eq!(e.duration, 55);
    assert_eq!(e.date, ts(2014, 9, 25, 0, 0, 0));
    assert!(e.description.ends_with(" [in progress]"));
}

#[test]
fn ymd_date_annotation() {
    let e = JournalEntry::from(&commit("fix\n2h-WIP-2023-1-7")).unwrap();
    assert_eq!(e.duration, 120);
    assert_eq!(e.date, ts(2023, 1, 7, 0, 0, 0));
}

#[test]
fn invalid_date_falls_back_to_author_date() {
    let e = JournalEntry::from(&commit("fix\n55m-99.99.2014")).unwrap();
    assert_eq!(e.date, ts(2024, 11, 22, 10, 0, 0));
}

#[test]
fn bracketed_hours() {
    let e = JournalEntry::from(&commit("fix\n[4h]")).unwrap();
    assert_eq!(e.duration, 240);
}

#[test]
fn plain_commit_yields_no_entry() {
    assert!(JournalEntry::from(&commit("just a fix\nnothing special here")).is_none());
    assert!(JournalEntry::from(&commit("")).is_none());
}

#[test]
fn first_annotation_wins_and_all_are_stripped() {
    let e = JournalEntry::from(&commit("top\n1h-DONE\n2h-WIP\nkeep me")).unwrap();
    assert_eq!(e.duration, 60);
    assert!(e.description.ends_with(" [done]"));
    assert!(e.description.contains("keep me"));
    assert!(!e.description.contains("2h"));
}

#[test]
fn crlf_lines_are_split() {
    let e = JournalEntry::from(&commit("top\r\n5h\r\ntail")).unwrap();
    assert_eq!(e.summary, "top");
    assert_eq!(e.duration, 300);
    assert!(e.description.contains("tail"));
}

#[test]
fn huge_duration_saturates() {
    let e = JournalEntry::from(&commit("fix\n99999999999h")).unwrap();
    assert_eq!(e.duration, i32::MAX);
}

#[test]
fn from_repo_commits_filters() {
    let commits = vec![
        commit("a\n1h"),
        commit("no annotation"),
        commit("b\n30m"),
    ];
    let entries = JournalEntry::from_repo_commits(commits);
    assert_eq!(entries.len(), 2);
    assert_eq!(entries[0].duration, 60);
    assert_eq!(entries[1].duration, 30);
}
