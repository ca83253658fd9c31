use moor::terminal::{Modes, Observation, Scan, Scanner};

fn released(scans: &[Scan]) -> Vec<u8> {
    let mut out = Vec::new();
    for scan in scans {
        if let Scan::Release(bytes) = scan {
            out.extend_from_slice(bytes);
        }
    }
    out
}

fn observations(scans: &[Scan]) -> Vec<Observation> {
    scans
        .iter()
        .filter_map(|scan| match scan {
            Scan::Observation(o) => Some(o.clone()),
            Scan::Release(_) => None,
        })
        .collect()
}

#[test]
fn plain_output_passes_through_whole() {
    let mut scanner = Scanner::new(24);
    let scans = scanner.scan_owned(0, b"hello\r\n".to_vec());
    assert_eq!(released(&scans), b"hello\r\n".to_vec());
    assert!(observations(&scans).is_empty());
    assert!(scanner.exact());
}

#[test]
fn a_title_reports_idle_once_and_is_passed_on() {
    let mut scanner = Scanner::new(24);
    let input = b"a\x1b]0;hi\x07b\x1b]2;hi again\x1b\\";
    let scans = scanner.scan(0, input);
    assert_eq!(released(&scans), input.to_vec());
    let seen = observations(&scans);
    assert_eq!(seen.len(), 1);
    match &seen[0] {
        Observation::State(state, title, truncated) => {
            assert_eq!(*state, "idle");
            assert_eq!(title, &b"hi".to_vec());
            assert!(!truncated);
        }
        other => panic!("unexpected {:?}", other),
    }
}

#[test]
fn a_braille_spinner_title_reports_busy() {
    let mut scanner = Scanner::new(24);
    let scans = scanner.scan(0, "\x1b]0;\u{2801} working\x07".as_bytes());
    match &observations(&scans)[..] {
        [Observation::State("busy", title, false)] => assert_eq!(title, &"\u{2801} working".as_bytes().to_vec()),
        other => panic!("unexpected {:?}", other),
    }
}

#[test]
fn a_hyperlink_reports_its_uri() {
    let mut scanner = Scanner::new(24);
    let scans = scanner.scan(0, b"\x1b]8;;https://x.test\x07");
    match &observations(&scans)[..] {
        [Observation::Link(uri, false)] => assert_eq!(uri, &b"https://x.test".to_vec()),
        other => panic!("unexpected {:?}", other),
    }
}

#[test]
fn the_first_query_announces_readiness() {
    let mut scanner = Scanner::new(24);
    let scans = scanner.scan(0, b"\x1b[c");
    let seen = observations(&scans);
    assert!(matches!(seen[0], Observation::Ready));
    match &seen[1] {
        Observation::Query(_, sequence) => assert_eq!(sequence, &b"\x1b[c".to_vec()),
        other => panic!("unexpected {:?}", other),
    }
    let again = observations(&scanner.scan(1, b"\x1b[c"));
    assert_eq!(again.len(), 1);
    assert!(matches!(again[0], Observation::Query(..)));
}

#[test]
fn an_osc_waiting_on_its_terminator_is_abandoned_at_its_deadline() {
    let mut scanner = Scanner::new(24);
    let first = scanner.scan(0, b"\x1b]0;tit\x1b");
    assert!(scanner.expire(49).is_empty());
    let late = scanner.expire(50);
    let mut all = released(&first);
    all.extend(released(&late));
    assert_eq!(all, b"\x1b]0;tit".to_vec());
    assert!(matches!(observations(&late)[..], [Observation::Degraded("osc", "deadline")]));
    assert!(!scanner.exact());
}

#[test]
fn the_reset_preamble_restores_the_default_modes() {
    let preamble = Modes::reset().preamble().unwrap();
    let expected = b"\x1b[?1049l\x1b(B\x1b)B\x1b[?7h\x1b[r\x1b[?6l\x1b[?1l\x1b[?2004l\x1b[?1000l\x1b[?1002l\x1b[?1003l\x1b[?1005l\x1b[?1006l\x1b[?1004l\x1b[?25h";
    assert_eq!(preamble, expected.to_vec());
}

#[test]
fn private_modes_are_tracked_and_reported() {
    let mut scanner = Scanner::new(24);
    scanner.scan(0, b"\x1b[?1049h\x1b[?25l\x1b[2;20r\x1b(0");
    let preamble = scanner.modes().preamble().unwrap();
    assert!(preamble.starts_with(b"\x1b[?1049h\x1b(0\x1b)B\x1b[?7h\x1b[2;20r"));
    assert!(preamble.ends_with(b"\x1b[?25l"));
    assert_eq!(scanner.modes().query(1049, false), Some(b"\x1b[?1049;1$y".to_vec()));
    assert_eq!(scanner.modes().query(25, true), Some(b"\x9b?25;2$y".to_vec()));
    assert_eq!(scanner.modes().query(9999, false), Some(b"\x1b[?9999;0$y".to_vec()));
    scanner.scan(1, b"\x1bc");
    assert_eq!(scanner.modes().preamble(), Modes::reset().preamble());
}

#[test]
fn an_unknown_alternate_screen_mode_makes_the_modes_inexact() {
    let mut scanner = Scanner::new(24);
    scanner.scan(0, b"\x1b[?47h");
    assert!(!scanner.modes().exact());
    assert_eq!(scanner.modes().preamble(), None);
    assert_eq!(scanner.modes().query(1, false), None);
}

#[test]
fn titles_replace_invalid_bytes_and_are_capped() {
    let mut scanner = Scanner::new(24);
    let scans = scanner.scan(0, b"\x1b]0;a\xffb\x00c\x07");
    match &observations(&scans)[..] {
        [Observation::State("idle", title, false)] => assert_eq!(title, &"a\u{fffd}b\u{fffd}c".as_bytes().to_vec()),
        other => panic!("unexpected {:?}", other),
    }
    let mut scanner = Scanner::new(24);
    let mut long = b"\x1b]2;".to_vec();
    long.extend(vec![b'x'; 300]);
    long.push(7);
    match &observations(&scanner.scan(0, &long))[..] {
        [Observation::State("idle", title, true)] => assert_eq!(title.len(), 255),
        other => panic!("unexpected {:?}", other),
    }
}

#[test]
fn the_byte_that_completes_a_query_reports_it() {
    let mut scanner = Scanner::new(24);
    let first = scanner.scan(0, b"\x1b[");
    assert!(!first.iter().any(|s| matches!(s, Scan::Observation(Observation::Query(..)))));
    let second = scanner.scan(1, b"c");
    assert!(second.iter().any(|s| matches!(s, Scan::Observation(Observation::Query(1, q)) if q == b"\x1b[c")));
}

#[test]
fn a_whole_query_in_one_scan_is_reported() {
    let mut scanner = Scanner::new(24);
    let scans = scanner.scan(0, b"\x1b[>0c");
    assert!(scans.iter().any(|s| matches!(s, Scan::Observation(Observation::Query(2, q)) if q == b"\x1b[>0c")));
    let scans = scanner.scan(10, b"\x9b6n");
    assert!(scans.iter().any(|s| matches!(s, Scan::Observation(Observation::Query(5, q)) if q == b"\x9b6n")));
}

#[test]
fn every_byte_comes_out_once_in_order_across_calls() {
    let mut scanner = Scanner::new(24);
    let inputs: Vec<&[u8]> = vec![b"ab\x1b[3", b"1mcd\x1b]0;t", b"i\x07e", b"\x1b["];
    let mut all = Vec::new();
    for input in &inputs {
        let scans = scanner.scan(0, input);
        for pair in scans.windows(2) {
            assert!(!matches!(pair, [Scan::Release(_), Scan::Release(_)]));
        }
        all.extend(released(&scans));
    }
    let joined: Vec<u8> = inputs.concat();
    assert!(joined.starts_with(&all));
    all.extend(released(&scanner.expire(1_000)));
    assert_eq!(all, joined);
}

#[test]
fn output_around_a_style_sequence_passes_on_as_one_run() {
    let mut scanner = Scanner::new(24);
    let scans = scanner.scan(0, b"ab\x1b[31mcd");
    assert_eq!(scans.len(), 1);
    assert_eq!(released(&scans), b"ab\x1b[31mcd".to_vec());
}
