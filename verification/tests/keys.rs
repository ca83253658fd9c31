use moor::keys::{input_keys, KeyStep};

fn sent(step: &KeyStep) -> Option<&[u8]> {
    match step {
        KeyStep::Send(bytes) => Some(bytes),
        _ => None,
    }
}

#[test]
fn plain_typing_is_sent_as_one_run() {
    let (steps, armed, ended) = input_keys(b"ls -l\r", Some(0x1c), false, false);
    assert_eq!(steps.len(), 1);
    assert_eq!(sent(&steps[0]), Some(&b"ls -l\r"[..]));
    assert!(!armed && !ended);
}

#[test]
fn the_detach_byte_arms_and_the_next_byte_detaches() {
    let (steps, armed, ended) = input_keys(b"ab\x1c", Some(0x1c), false, false);
    assert_eq!(sent(&steps[0]), Some(&b"ab"[..]));
    assert!(matches!(steps[1], KeyStep::Arm));
    assert!(armed && !ended);
    let (steps, armed, ended) = input_keys(b"xyz", Some(0x1c), false, true);
    assert_eq!(steps.len(), 1);
    assert_eq!(sent(&steps[0]), Some(&b"x"[..]));
    assert!(!armed && ended);
}

#[test]
fn a_doubled_detach_byte_goes_to_the_child() {
    let (steps, armed, ended) = input_keys(b"\x1c\x1cq", Some(0x1c), false, false);
    assert!(matches!(steps[0], KeyStep::Arm));
    assert_eq!(sent(&steps[1]), Some(&b"\x1cq"[..]));
    assert!(!armed && !ended);
}

#[test]
fn control_z_suspends_unless_passed_on() {
    let (steps, _, _) = input_keys(b"a\x1ab", Some(0x1c), false, false);
    assert_eq!(sent(&steps[0]), Some(&b"a"[..]));
    assert!(matches!(steps[1], KeyStep::Suspend));
    assert_eq!(sent(&steps[2]), Some(&b"b"[..]));
    let (steps, _, _) = input_keys(b"a\x1ab", Some(0x1c), true, false);
    assert_eq!(steps.len(), 1);
    assert_eq!(sent(&steps[0]), Some(&b"a\x1ab"[..]));
}

#[test]
fn without_a_detach_byte_nothing_arms() {
    let (steps, armed, ended) = input_keys(b"\x1c", None, true, false);
    assert_eq!(sent(&steps[0]), Some(&b"\x1c"[..]));
    assert!(!armed && !ended);
}
