use moor::launch::{
    decode_launch_record, decode_launch_result, first_launch, instrument_ack, instrument_stage_name, launch_result,
    lowercase_hex, second_launch, validate_instrument_ack, FirstLaunch, InstrumentError, LaunchError,
};

fn record(generation: u32, nonce: [u8; 16]) -> Vec<u8> {
    let mut out = b"MOORLCH3\x01\0\0\0".to_vec();
    out.extend(generation.to_le_bytes());
    out.extend(nonce);
    out
}

#[test]
fn launch_records_name_a_generation_of_two_or_more_with_a_nonce() {
    assert_eq!(decode_launch_record(&record(2, [1; 16])), Some(2));
    assert_eq!(decode_launch_record(&record(1, [1; 16])), None);
    assert_eq!(decode_launch_record(&record(9, [0; 16])), None);
    assert_eq!(decode_launch_record(&record(9, [1; 16])[..31]), None);
    let mut bad = record(9, [1; 16]);
    bad[10] = 1;
    assert_eq!(decode_launch_record(&bad), None);
}

#[test]
fn lowercase_hex_accepts_only_digits_and_a_to_f() {
    assert!(lowercase_hex(b"09af"));
    assert!(lowercase_hex(b""));
    assert!(!lowercase_hex(b"0A"));
    assert!(!lowercase_hex(b"g"));
}

#[test]
fn launch_results_round_trip_and_reject_invalid_states() {
    let bytes = launch_result(3, 513, 7).unwrap();
    assert_eq!(bytes, *b"MORR\x01\x03\x01\x02\x07\0\0\0");
    assert_eq!(decode_launch_result(&bytes), Some((3, 513, 7)));
    assert_eq!(launch_result(1, 0, 1).map(|b| decode_launch_result(&b)), Some(Some((1, 0, 1))));
    assert_eq!(launch_result(3, 0, 7), None);
    assert_eq!(launch_result(2, 1, 7), None);
    assert_eq!(launch_result(1, 0, 0), None);
    assert_eq!(launch_result(4, 1, 1), None);
    let mut wrong = bytes;
    wrong[4] = 2;
    assert_eq!(decode_launch_result(&wrong), None);
}

#[test]
fn the_first_result_adopts_finishes_or_refuses() {
    assert_eq!(first_launch(Ok((1, 0, 5))), FirstLaunch::Adopted(5));
    assert_eq!(first_launch(Ok((3, 9, 5))), FirstLaunch::Finished(9, 5));
    assert_eq!(first_launch(Ok((2, 0, 5))), FirstLaunch::Refused(LaunchError::Invalid));
    assert_eq!(first_launch(Err(LaunchError::Failed)), FirstLaunch::Refused(LaunchError::Failed));
}

#[test]
fn the_second_result_must_match_the_adopted_generation() {
    assert_eq!(second_launch(5, Ok((2, 0, 5)), false), Ok((0, 5)));
    assert_eq!(second_launch(5, Ok((3, 4, 5)), false), Ok((4, 5)));
    assert_eq!(second_launch(5, Ok((2, 0, 6)), false), Err(LaunchError::Invalid));
    assert_eq!(second_launch(5, Err(LaunchError::Failed), true), Ok((0, 5)));
    assert_eq!(second_launch(5, Err(LaunchError::Failed), false), Err(LaunchError::Failed));
}

#[test]
fn instrument_acknowledgements_bind_generation_pid_and_nonce() {
    let ack = instrument_ack(3, 77, [9; 16]).unwrap();
    let mut expected = b"MOORINS3\x01\0\0\0".to_vec();
    expected.extend(3u32.to_le_bytes());
    expected.extend(77u32.to_le_bytes());
    expected.extend([9u8; 16]);
    assert_eq!(ack, expected);
    assert_eq!(instrument_ack(0, 77, [9; 16]), Err(InstrumentError::ZeroIdentity));
    assert_eq!(instrument_ack(3, 0, [9; 16]), Err(InstrumentError::ZeroIdentity));
    assert_eq!(validate_instrument_ack(&ack, true, 3, 77, [9; 16]), Ok(()));
    assert_eq!(validate_instrument_ack(&ack, false, 3, 77, [9; 16]), Err(InstrumentError::Invalid));
    assert_eq!(validate_instrument_ack(&ack, true, 3, 78, [9; 16]), Err(InstrumentError::Invalid));
}

#[test]
fn instrument_stage_names_hash_the_bound_identity() {
    let name = instrument_stage_name(b"w", 2, [1; 16]).unwrap();
    assert_eq!(
        String::from_utf8(name).unwrap(),
        "cafd8fcd66a33c7e51d15312be9177147cd77036958587353975736c10ed703e.instrument"
    );
}
