use moor::lifecycle::{child_environment, finish_status};
use moor::lifecycle::{age_label, environment_key, exit_records, last_lines, lifecycle_exit, lifecycle_running};

const RUNNING: &str = "{\"v\":1,\"type\":\"lifecycle\",\"phase\":\"running\",\"session\":\"dw==\",\"generation\":7,\"wire_generation\":3,\"incarnation\":\"AQEBAQEBAQEBAQEBAQEBAQ==\",\"start_wall_ms\":\"1000\",\"start_mono_ms\":\"20\",\"boot_id\":\"AgICAgICAgICAgICAgICAg==\",\"path_encoding\":\"unix\",\"event_path\":\"L2U=\",\"instrument_path\":null}\n";

#[test]
fn last_lines_keeps_the_final_lines_of_a_log() {
    assert_eq!(last_lines(b"a\nb\nc\n", 2), b"b\nc\n");
    assert_eq!(last_lines(b"a\nb\nc", 2), b"b\nc");
    assert_eq!(last_lines(b"a\nb\n", 5), b"a\nb\n");
    assert_eq!(last_lines(b"a\nb\n", 0), b"");
    assert_eq!(last_lines(b"", 3), b"");
    assert_eq!(last_lines(b"\n\n", 1), b"\n");
}

#[test]
fn the_running_record_lists_identity_times_and_paths() {
    let text = lifecycle_running(b"w", (Some(7), 3), [1; 16], (1000, 20, [2; 16]), ("unix", Some(b"/e"), None));
    assert_eq!(String::from_utf8(text).unwrap(), RUNNING);
    let text = lifecycle_running(b"w", (None, 1), [1; 16], (1000, 20, [2; 16]), ("unix", None, None));
    assert!(String::from_utf8(text).unwrap().contains("\"generation\":null,\"wire_generation\":1,"));
}

#[test]
fn the_exit_record_turns_the_phase_and_appends_the_outcome() {
    let text = lifecycle_exit(RUNNING, 5000, 42, b"\"ended\":\"exited\",\"code\":0");
    let expected = RUNNING
        .strip_suffix("}\n")
        .unwrap()
        .replacen("\"phase\":\"running\"", "\"phase\":\"exited\"", 1)
        + ",\"end_wall_ms\":\"5000\",\"output_end\":\"42\",\"ended\":\"exited\",\"code\":0}\n";
    assert_eq!(String::from_utf8(text).unwrap(), expected);
}

#[test]
fn exit_records_give_the_event_and_the_record() {
    let (event, record) = exit_records(RUNNING, (3000, 4000), 9, ("terminated", "code", 1, Some("forced")));
    assert_eq!(event.0, "exit");
    assert_eq!(event.1, 3000);
    assert_eq!(
        String::from_utf8(event.2).unwrap(),
        ",\"ended\":\"terminated\",\"code\":1,\"method\":\"forced\""
    );
    let record = String::from_utf8(record).unwrap();
    assert!(record.ends_with(
        ",\"end_wall_ms\":\"4000\",\"output_end\":\"9\",\"ended\":\"terminated\",\"code\":1,\"method\":\"forced\"}\n"
    ));
    let (event, _) = exit_records(RUNNING, (1, 1), 0, ("signalled", "signal", 9, None));
    assert_eq!(String::from_utf8(event.2).unwrap(), ",\"ended\":\"signalled\",\"signal\":9");
}

#[test]
fn environment_keys_upcase_and_replace_other_bytes() {
    assert_eq!(environment_key(b"moor-dev", "_GENERATION"), b"MOOR_DEV_GENERATION".to_vec());
    let long = vec![b'a'; 200];
    let key = environment_key(&long, "_X");
    assert_eq!(key.len(), 127);
    assert!(key.ends_with(b"A_X"));
}

#[test]
fn ages_use_the_largest_whole_unit() {
    assert_eq!(age_label(None), b"unknown".to_vec());
    assert_eq!(age_label(Some(59)), b"59s ago".to_vec());
    assert_eq!(age_label(Some(60)), b"1m ago".to_vec());
    assert_eq!(age_label(Some(7199)), b"1h ago".to_vec());
    assert_eq!(age_label(Some(86400 * 3 + 5)), b"3d ago".to_vec());
}

#[test]
fn the_child_loses_inherited_session_variables_and_gets_its_own() {
    let (removed, set) = child_environment(b"moor", true, 42, [0xab; 16]);
    assert_eq!(
        removed,
        vec![
            b"MOOR_GENERATION".to_vec(),
            b"DESK_SESSION_GENERATION".to_vec(),
            b"DESK_SESSION_SEMANTIC_TOKEN".to_vec(),
            b"DESK_MOOR_LAUNCH_CHANNEL".to_vec(),
        ]
    );
    assert_eq!(
        set,
        vec![
            (b"MOOR_GENERATION".to_vec(), b"42".to_vec()),
            (b"DESK_SESSION_GENERATION".to_vec(), b"42".to_vec()),
            (b"DESK_SESSION_SEMANTIC_TOKEN".to_vec(), b"abababababababababababababababab".to_vec()),
        ]
    );
    let (_, plain) = child_environment(b"moor", false, 42, [0; 16]);
    assert!(plain.is_empty());
    let mut token = [0u8; 16];
    token[0] = 0x0f;
    token[15] = 0xa0;
    let (_, only_token) = child_environment(b"my-tool", false, 1, token);
    assert_eq!(
        only_token,
        vec![(b"DESK_SESSION_SEMANTIC_TOKEN".to_vec(), b"0f0000000000000000000000000000a0".to_vec())]
    );
}

#[test]
fn a_running_status_ends_with_directory_pid_twice_and_nonce() {
    let mut status = vec![9u8];
    finish_status(&mut status, b"/w", 0x01020304, [7; 16]).unwrap();
    let mut expected = vec![9u8, 2, 0, 0, 0, b'/', b'w', 4, 3, 2, 1, 4, 3, 2, 1];
    expected.extend_from_slice(&[7; 16]);
    assert_eq!(status, expected);
    let mut kept = vec![1u8];
    let long = vec![b'a'; 1_048_577];
    assert_eq!(finish_status(&mut kept, &long, 1, [0; 16]), Err(moor::wire::WireError::OversizedMessage));
    assert_eq!(kept, vec![1u8]);
}
