use moor::cli::{help, parse, Action, CreateMode, Options, Redraw, Reset};

fn args(list: &[&str]) -> Vec<Vec<u8>> {
    list.iter().map(|a| a.as_bytes().to_vec()).collect()
}

fn message(list: &[&str]) -> String {
    match parse(&args(list)) {
        Err(error) => String::from_utf8(error.0).unwrap(),
        Ok(action) => panic!("accepted: {:?}", action),
    }
}

fn default_options() -> Options {
    Options::default()
}

#[test]
fn no_arguments_and_help_words_ask_for_help() {
    assert!(matches!(parse(&args(&["moor"])), Ok(Action::Help)));
    for word in ["--help", "-h", "?"] {
        assert!(matches!(parse(&args(&["moor", word])), Ok(Action::Help)));
    }
    assert!(matches!(parse(&args(&["moor", "--version"])), Ok(Action::Version)));
    assert_eq!(message(&["moor", "--help", "x"]), "Invalid number of arguments");
    assert_eq!(message(&["moor", "--version", "x"]), "Invalid number of arguments");
}

#[test]
fn defaults_detach_on_control_backslash_with_a_mebibyte_log() {
    let options = default_options();
    assert_eq!(options.detach, Some(0x1c));
    assert_eq!(options.redraw, Redraw::NoRedraw);
    assert_eq!(options.reset, Reset::NoReset);
    assert_eq!(options.log_cap, 1 << 20);
    assert!(!options.quiet && !options.non_vt && !options.pass_suspend);
    assert!(options.stderr.is_none() && options.directory.is_none());
}

#[test]
fn a_bare_session_name_creates_with_its_command() {
    match parse(&args(&["moor", "work", "-q", "vim", "-q", "file"])).unwrap() {
        Action::Create { mode, session, command, options } => {
            assert_eq!(mode, CreateMode::Bare);
            assert_eq!(session, b"work".to_vec());
            assert_eq!(command, args(&["-q", "file"]).into_iter().fold(vec![b"vim".to_vec()], |mut v, a| {
                v.push(a);
                v
            }));
            assert!(options.quiet);
        }
        other => panic!("unexpected {:?}", other),
    }
}

#[test]
fn create_words_pick_their_mode_and_read_options() {
    match parse(&args(&["moor", "new", "-e", "^A", "-r", "winch", "-C", "2k", "-d", "/tmp", "s1"])).unwrap() {
        Action::Create { mode, session, command, options } => {
            assert_eq!(mode, CreateMode::New);
            assert_eq!(session, b"s1".to_vec());
            assert!(command.is_empty());
            assert_eq!(options.detach, Some(1));
            assert_eq!(options.redraw, Redraw::Winch);
            assert_eq!(options.log_cap, 2048);
            assert_eq!(options.directory, Some(b"/tmp".to_vec()));
        }
        other => panic!("unexpected {:?}", other),
    }
    for (word, mode) in [("start", CreateMode::Start), ("s", CreateMode::Start), ("run", CreateMode::Run), ("n", CreateMode::New)] {
        match parse(&args(&["moor", word, "x"])).unwrap() {
            Action::Create { mode: got, .. } => assert_eq!(got, mode),
            other => panic!("unexpected {:?}", other),
        }
    }
}

#[test]
fn detach_values_take_printable_bytes_and_caret_notation() {
    let detach = |value: &str| match parse(&args(&["moor", "new", "-e", value, "x"])) {
        Ok(Action::Create { options, .. }) => Ok(options.detach),
        Ok(other) => panic!("unexpected {:?}", other),
        Err(error) => Err(String::from_utf8(error.0).unwrap()),
    };
    assert_eq!(detach("a"), Ok(Some(b'a')));
    assert_eq!(detach("^?"), Ok(Some(0x7f)));
    assert_eq!(detach("^@"), Ok(Some(0)));
    assert_eq!(detach("^_"), Ok(Some(0x1f)));
    assert_eq!(detach("ab"), Err("Invalid value 'ab' for option '-e'".to_string()));
    match parse(&args(&["moor", "new", "-E", "x"])).unwrap() {
        Action::Create { options, .. } => assert_eq!(options.detach, None),
        other => panic!("unexpected {:?}", other),
    }
}

#[test]
fn log_cap_suffixes_scale_in_either_case_and_overflow_is_refused() {
    let cap = |value: &str| match parse(&args(&["moor", "new", "-C", value, "x"])) {
        Ok(Action::Create { options, .. }) => Ok(options.log_cap),
        Ok(other) => panic!("unexpected {:?}", other),
        Err(error) => Err(String::from_utf8(error.0).unwrap()),
    };
    assert_eq!(cap("0"), Ok(0));
    assert_eq!(cap("3K"), Ok(3 * 1024));
    assert_eq!(cap("1m"), Ok(1 << 20));
    assert_eq!(cap("2G"), Ok(2 << 30));
    assert_eq!(cap("99999999999999999999"), Err("Invalid value '99999999999999999999' for option '-C'".to_string()));
    assert_eq!(cap("18446744073709551615g"), Err("Invalid value '18446744073709551615g' for option '-C'".to_string()));
    assert_eq!(cap("01"), Err("Invalid value '01' for option '-C'".to_string()));
}

#[test]
fn attach_takes_view_options_and_refuses_create_options() {
    match parse(&args(&["moor", "a", "-t", "-z", "work"])).unwrap() {
        Action::Attach { session, options } => {
            assert_eq!(session, b"work".to_vec());
            assert!(options.non_vt && options.pass_suspend);
        }
        other => panic!("unexpected {:?}", other),
    }
    assert_eq!(message(&["moor", "attach", "-C", "1", "w"]), "Option '-C' is not valid for 'attach'");
    assert_eq!(message(&["moor", "attach"]), "Invalid number of arguments");
    assert_eq!(message(&["moor", "attach", "a", "b"]), "Invalid number of arguments");
}

#[test]
fn a_non_vt_viewer_cannot_reset_by_moving() {
    assert_eq!(message(&["moor", "attach", "-t", "-R", "move", "w"]), "Invalid value 'move' for option '-R'");
    assert_eq!(message(&["moor", "attach", "-R", "jump", "w"]), "Invalid value 'jump' for option '-R'");
}

#[test]
fn kill_remove_list_tail_and_clear_read_their_flags() {
    assert!(matches!(
        parse(&args(&["moor", "kill", "-f", "-q", "w"])),
        Ok(Action::Kill { force: true, quiet: true, .. })
    ));
    assert!(matches!(parse(&args(&["moor", "rm", "-a"])), Ok(Action::Remove { session: None, all: true, quiet: false })));
    assert_eq!(message(&["moor", "rm"]), "Invalid number of arguments");
    assert_eq!(message(&["moor", "rm", "-a", "w"]), "Invalid number of arguments");
    assert!(matches!(parse(&args(&["moor", "ls", "-a"])), Ok(Action::List { all: true })));
    assert!(matches!(parse(&args(&["moor", "list"])), Ok(Action::List { all: false })));
    assert!(matches!(parse(&args(&["moor", "current"])), Ok(Action::Current)));
    match parse(&args(&["moor", "tail", "-f", "-n", "25", "w"])).unwrap() {
        Action::Tail { session, follow, lines } => {
            assert_eq!(session, b"w".to_vec());
            assert!(follow);
            assert_eq!(lines, 25);
        }
        other => panic!("unexpected {:?}", other),
    }
    assert!(matches!(parse(&args(&["moor", "tail", "w"])), Ok(Action::Tail { lines: 10, follow: false, .. })));
    assert_eq!(message(&["moor", "tail", "-n", "4294967296", "w"]), "Invalid value '4294967296' for option '-n'");
    assert!(matches!(parse(&args(&["moor", "clear"])), Ok(Action::Clear(None))));
    match parse(&args(&["moor", "push", "w"])).unwrap() {
        Action::Push(session) => assert_eq!(session, b"w".to_vec()),
        other => panic!("unexpected {:?}", other),
    }
}

#[test]
fn unknown_options_modes_and_missing_values_are_named() {
    assert_eq!(message(&["moor", "-x"]), "Invalid mode '-x'");
    assert_eq!(message(&["moor", "new", "-x", "w"]), "Invalid mode '-x'");
    assert_eq!(message(&["moor", "new", "w", "-e"]), "Option '-e' requires an argument");
    assert_eq!(message(&["moor", "list", "-f"]), "Option '-f' is not valid for 'list'");
    assert_eq!(message(&["moor", "new", "w.log"]), "Invalid session name 'w.log'");
    assert_eq!(message(&["moor", "new", "a b/"]), "Invalid session name 'a\\x20b/'");
}

#[test]
fn double_dash_ends_options_and_may_introduce_a_dash_operand() {
    match parse(&args(&["moor", "--", "-odd"])) {
        Ok(Action::Create { mode, session, .. }) => {
            assert_eq!(mode, CreateMode::Bare);
            assert_eq!(session, b"-odd".to_vec());
        }
        other => panic!("unexpected {:?}", other),
    }
    match parse(&args(&["moor", "attach", "--", "-w"])) {
        Ok(Action::Attach { session, .. }) => assert_eq!(session, b"-w".to_vec()),
        other => panic!("unexpected {:?}", other),
    }
    assert_eq!(message(&["moor", "attach", "w", "--", "x"]), "Invalid number of arguments");
    assert!(matches!(parse(&args(&["moor", "attach", "w", "--"])), Ok(Action::Attach { .. })));
}

#[test]
fn help_names_the_program_and_version() {
    let text = String::from_utf8(help("moor", "1.2.3")).unwrap();
    assert!(text.starts_with("moor 1.2.3\nUsage:\n  moor <session> [options] [command [argument...]]\n"));
    assert!(text.contains("  moor rm [-q] <session> | moor rm -a [-q]\n"));
    assert!(text.contains("  -e <char>  detach byte (default ^\\)\n"));
    assert!(text.ends_with("  -d <path>  child working directory\n"));
}
