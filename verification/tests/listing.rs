use moor::client::SessionState;
use moor::listing::{list_line, removal_line, removal_summary, session_name, sort_sessions};

#[test]
fn an_exit_record_names_its_session_and_other_artifacts_none() {
    assert_eq!(session_name(b"work.exit"), Some(b"work".to_vec()));
    assert_eq!(session_name(b"work.log"), None);
    assert_eq!(session_name(b"work.events"), None);
    assert_eq!(session_name(b"work"), Some(b"work".to_vec()));
}

#[test]
fn a_listing_line_pads_the_name_and_marks_the_state() {
    let line = list_line(b"dev", b"5m", SessionState::Attached);
    let mut expected = b"dev".to_vec();
    expected.extend(std::iter::repeat(b' ').take(21));
    expected.extend(b" since 5m [attached]\n");
    assert_eq!(line, expected);
    let plain = list_line(b"dev", b"5m", SessionState::Live);
    assert!(plain.ends_with(b" since 5m\n"));
}

#[test]
fn removal_lines_say_what_was_done() {
    assert_eq!(removal_line(b"old", SessionState::Exited, false), b"removed old\n".to_vec());
    assert!(removal_line(b"old", SessionState::Stale, true).is_empty());
    assert_eq!(removal_line(b"run", SessionState::Live, false), b"skipped run (running)\n".to_vec());
    assert_eq!(
        removal_line(b"odd", SessionState::Indeterminate, false),
        b"skipped odd (indeterminate)\n".to_vec()
    );
    assert!(removal_line(b"gone", SessionState::Missing, false).is_empty());
}

#[test]
fn the_removal_summary_counts_sessions() {
    assert_eq!(removal_summary(0), b"nothing to remove\n".to_vec());
    assert_eq!(removal_summary(3), b"3 session(s) removed\n".to_vec());
}

#[test]
fn sessions_are_listed_by_name() {
    let sorted = sort_sessions(vec![
        (b"b".to_vec(), SessionState::Live),
        (b"a".to_vec(), SessionState::Exited),
        (b"c".to_vec(), SessionState::Stale),
    ]);
    let names: Vec<Vec<u8>> = sorted.iter().map(|e| e.0.clone()).collect();
    assert_eq!(names, vec![b"a".to_vec(), b"b".to_vec(), b"c".to_vec()]);
    assert_eq!(sorted[0].1, SessionState::Exited);
}
