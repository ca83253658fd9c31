use moor::name::{artifact_suffix_len, program, push_rendered, render, valid_session};

#[test]
fn render_keeps_plain_bytes_and_escapes_the_rest_in_uppercase_hex() {
    assert_eq!(render(b"a-b_c./9Z"), b"a-b_c./9Z".to_vec());
    assert_eq!(render(b"a b\x00\xff"), b"a\\x20b\\x00\\xFF".to_vec());
    let mut out = b">".to_vec();
    push_rendered(&mut out, b"\n");
    assert_eq!(out, b">\\x0A".to_vec());
}

#[test]
fn program_is_the_rendered_last_path_part_or_moor() {
    assert_eq!(program(b"/usr/bin/moor-dev"), b"moor-dev".to_vec());
    assert_eq!(program(b"plain"), b"plain".to_vec());
    assert_eq!(program(b"/usr/bin/"), b"moor".to_vec());
    assert_eq!(program(b""), b"moor".to_vec());
    assert_eq!(program(b"./a b"), b"a\\x20b".to_vec());
}

#[test]
fn artifact_suffixes_are_recognised_by_length() {
    assert_eq!(artifact_suffix_len(b"x.log"), Some(4));
    assert_eq!(artifact_suffix_len(b".events"), Some(7));
    assert_eq!(artifact_suffix_len(b"a.exit"), Some(5));
    assert_eq!(artifact_suffix_len(b"a.instrument"), Some(11));
    assert_eq!(artifact_suffix_len(b"log"), None);
    assert_eq!(artifact_suffix_len(b"a.logs"), None);
}

#[test]
fn session_names_exclude_empty_dot_parts_nul_trailing_slash_and_artifacts() {
    assert!(valid_session(b"work"));
    assert!(valid_session(b"dir/work"));
    assert!(valid_session(b"a b"));
    assert!(!valid_session(b""));
    assert!(!valid_session(b"a\x00b"));
    assert!(!valid_session(b"work/"));
    assert!(!valid_session(b"dir/.."));
    assert!(!valid_session(b"."));
    assert!(!valid_session(b"w.exit"));
    assert!(!valid_session(b"d/w.instrument"));
}
