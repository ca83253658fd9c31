use moor::ancestry::{ancestry, ancestry_values, current_line};

#[test]
fn the_newer_variable_holds_base64_paths_after_v2() {
    let paths = ancestry(None, Some(b"v2:L2EvYg==:L2M=")).unwrap();
    assert_eq!(paths, vec![b"/a/b".to_vec(), b"/c".to_vec()]);
    assert_eq!(ancestry(Some(b"/x"), Some(b"v2:L2M=")).unwrap(), vec![b"/c".to_vec()]);
}

#[test]
fn a_malformed_newer_variable_is_refused() {
    assert!(ancestry(None, Some(b"v3:L2M=")).is_none());
    assert!(ancestry(None, Some(b"v2:")).is_none());
    assert!(ancestry(None, Some(b"v2:L2M=::L2M=")).is_none());
    assert!(ancestry(None, Some(b"v2:***")).is_none());
    assert!(ancestry(None, Some(b"v2:L2M=\xff")).is_none());
}

#[test]
fn the_older_variable_holds_plain_paths_and_skips_empty_parts() {
    assert_eq!(ancestry(Some(b"/a::/b:"), None).unwrap(), vec![b"/a".to_vec(), b"/b".to_vec()]);
    assert!(ancestry(None, None).unwrap().is_empty());
    assert!(ancestry(Some(b""), None).unwrap().is_empty());
}

#[test]
fn the_current_line_joins_the_shown_names() {
    assert_eq!(current_line(&[b"outer".to_vec(), b"in ner".to_vec()]), Some(b"outer > in\\x20ner\n".to_vec()));
    assert_eq!(current_line(&[b"one".to_vec()]), Some(b"one\n".to_vec()));
    assert_eq!(current_line(&[]), None);
}

#[test]
fn the_values_passed_on_name_the_chain_and_read_back() {
    let chain = vec![b"/a/b".to_vec(), b"/c".to_vec()];
    let (legacy, v2) = ancestry_values(&chain);
    assert_eq!(legacy, b"/a/b:/c".to_vec());
    assert_eq!(v2, b"v2:L2EvYg==:L2M=".to_vec());
    assert_eq!(ancestry(Some(&legacy), Some(&v2)).unwrap(), chain);
    assert_eq!(ancestry(Some(&legacy), None).unwrap(), chain);
}
