use ahkd::cfgfile::{parse_command, parse_config, Action, LineText};
use ahkd::keyseq::{Key, Keysym, ModField};

fn sections<'a>(text: &'a str, merge: bool) -> Vec<&'a str> {
    LineText::new("foo", 10, text)
        .split(char::is_whitespace, merge)
        .collect()
        .iter()
        .map(|lt| lt.as_str())
        .collect()
}

fn plain(c: char) -> Key {
    Key {
        modifiers: ModField {
            mod_shift: false,
            mod_control: false,
            mod1: false,
            mod2: false,
            mod3: false,
            mod4: false,
            mod5: false,
        },
        main_key: Keysym(c as u32),
    }
}

fn lines(text: &[&str]) -> Vec<String> {
    text.iter().map(|s| s.to_string()).collect()
}

#[test]
fn split_test() {
    // Check basic functionality.
    let text = "two words";
    let lt = LineText::new("foo", 10, text);

    let split: Vec<_> = lt
        .split(char::is_whitespace, true)
        .collect()
        .iter()
        .map(|lt| lt.as_str())
        .collect();
    assert_eq!(split, vec!["two", "words"]);

    // Check whether repeated delimiters are condensed properly.
    let text = " \t  with  \n  whitespace\t\t   ";
    let lt = LineText::new("foo", 10, text);

    let split: Vec<_> = lt
        .split(char::is_whitespace, true)
        .collect()
        .iter()
        .map(|lt| lt.as_str())
        .collect();
    assert_eq!(split, vec!["with", "whitespace"]);
}

#[test]
fn split1_test() {
    let text = "actually three words";
    let lt = LineText::new("foo", 10, text);

    // Check normal function.
    let success = lt.split1(char::is_whitespace, "Expected space").unwrap();
    let left = success.0.as_str();
    let right = success.1.as_str();
    assert_eq!((left, right), ("actually", "three words"));

    // Check for exceptional cases.
    let failure = lt.split1(|c| c == 'x', "Expected character 'x'");
    assert!(failure.is_err());
}

#[test]
fn split_keeps_empty_sections_without_merge() {
    assert_eq!(sections("a  b", false), vec!["a", "", "b"]);
    assert_eq!(sections("", false), vec![""]);
    assert_eq!(sections(" a ", false), vec!["", "a", ""]);
    assert_eq!(sections("", true), Vec::<&str>::new());
    assert_eq!(sections("   ", true), Vec::<&str>::new());
}

#[test]
fn split_next_and_rest() {
    let lt = LineText::new("foo", 1, "bind C-x: ls -l");
    let mut split = lt.split(char::is_whitespace, true);
    assert_eq!(split.next().unwrap().as_str(), "bind");
    assert_eq!(split.rest().as_str(), "C-x: ls -l");
}

#[test]
fn split_passes_over_a_wide_separator() {
    // U+2003 EM SPACE is white space and takes three bytes.
    let text = "caf\u{e9}\u{2003}cr\u{e8}me";
    assert_eq!(sections(text, true), vec!["caf\u{e9}", "cr\u{e8}me"]);
    let lt = LineText::new("foo", 1, text);
    let (left, right) = lt.split1(char::is_whitespace, "Expected space").unwrap();
    assert_eq!((left.as_str(), right.as_str()), ("caf\u{e9}", "cr\u{e8}me"));
}

#[test]
fn split1_error_points_at_the_end() {
    let lt = LineText::new("foo.cfg", 7, "no colon");
    let err = lt.split1(|c| c == ':', "Expected \":\"").unwrap_err();
    assert_eq!(
        err.to_string(),
        "Syntax error: foo.cfg:7:8\n     |\n   7 | no colon\n     |         ^\nExpected \":\""
    );
}

#[test]
fn trim_start_test() {
    assert_eq!(LineText::new("f", 1, "  \t x y ").trim_start().as_str(), "x y ");
    assert_eq!(LineText::new("f", 1, "x").trim_start().as_str(), "x");
    assert_eq!(LineText::new("f", 1, " \t ").trim_start().as_str(), "");
    assert_eq!(LineText::new("f", 1, "").trim_start().as_str(), "");
}

#[test]
fn substr_test() {
    let lt = LineText::new("f", 1, "hello world");
    assert_eq!(lt.substr(None, None).as_str(), "hello world");
    assert_eq!(lt.substr(Some(6), None).as_str(), "world");
    assert_eq!(lt.substr(None, Some(5)).as_str(), "hello");
    let inner = lt.substr(Some(2), Some(9));
    assert_eq!(inner.as_str(), "llo wor");
    assert_eq!(inner.substr(Some(1), Some(3)).as_str(), "lo");
    assert_eq!(inner.len(), 7);
}

#[test]
fn to_error_test() {
    let lt = LineText::new("keys.cfg", 12, "bind C-x ls");
    let err = lt.substr(Some(5), Some(8)).to_error("Bad".to_string());
    assert_eq!(
        err.to_string(),
        "Syntax error: keys.cfg:12:5\n     |\n  12 | bind C-x ls\n     |      ^^^\nBad"
    );
}

#[test]
fn error_line_number_wider_than_margin() {
    let lt = LineText::new("k", 123456, "x");
    let err = lt.to_error("m".to_string());
    assert_eq!(
        err.to_string(),
        "Syntax error: k:123456:0\n     |\n123456 | x\n     | ^\nm"
    );
}

#[test]
fn parse_command_blank_and_comment() {
    assert!(parse_command(LineText::new("f", 1, "")).unwrap().is_none());
    assert!(parse_command(LineText::new("f", 1, "   \t")).unwrap().is_none());
    assert!(parse_command(LineText::new("f", 1, "# bind a: b")).unwrap().is_none());
    assert!(parse_command(LineText::new("f", 1, "   #x")).unwrap().is_none());
}

#[test]
fn parse_command_bind() {
    let line = parse_command(LineText::new("f", 1, "  bind a b: ls  -l\t/tmp "))
        .unwrap()
        .unwrap();
    assert_eq!(line.keyseq.keys, vec![plain('a'), plain('b')]);
    match line.action {
        Action::Bind { command } => assert_eq!(command, vec!["ls", "-l", "/tmp"]),
        Action::Remap { .. } => panic!("expected a bind"),
    }
}

#[test]
fn parse_command_map() {
    let line = parse_command(LineText::new("f", 1, "map a: b c")).unwrap().unwrap();
    assert_eq!(line.keyseq.keys, vec![plain('a')]);
    match line.action {
        Action::Remap { to } => assert_eq!(to.keys, vec![plain('b'), plain('c')]),
        Action::Bind { .. } => panic!("expected a map"),
    }
}

#[test]
fn parse_command_errors() {
    let unknown = parse_command(LineText::new("f", 3, "  grab a: b")).unwrap_err();
    assert_eq!(
        unknown.to_string(),
        "Syntax error: f:3:2\n     |\n   3 |   grab a: b\n     |   ^^^^\nUnrecognized command \"grab\""
    );
    let no_colon = parse_command(LineText::new("f", 3, "bind a b")).unwrap_err();
    assert_eq!(
        no_colon.to_string(),
        "Syntax error: f:3:8\n     |\n   3 | bind a b\n     |         ^\nExpected \":\""
    );
    let no_keys = parse_command(LineText::new("f", 3, "bind : ls")).unwrap_err();
    assert_eq!(
        no_keys.to_string(),
        "Syntax error: f:3:5\n     |\n   3 | bind : ls\n     |      ^\nExpected a key sequence"
    );
    let no_command = parse_command(LineText::new("f", 3, "bind a:")).unwrap_err();
    assert_eq!(
        no_command.to_string(),
        "Syntax error: f:3:7\n     |\n   3 | bind a:\n     |        ^\nExpected a command"
    );
    let no_target = parse_command(LineText::new("f", 3, "map a: ")).unwrap_err();
    assert_eq!(
        no_target.to_string(),
        "Syntax error: f:3:6\n     |\n   3 | map a: \n     |       ^\nExpected a key sequence"
    );
    let bad_key = parse_command(LineText::new("f", 3, "map a: nosuchkey")).unwrap_err();
    assert_eq!(
        bad_key.to_string(),
        "Syntax error: f:3:7\n     |\n   3 | map a: nosuchkey\n     |        ^^^^^^^^^\nInvalid keysym \"nosuchkey\""
    );
}

#[test]
fn parse_config_collects_commands_in_order() {
    let config = parse_config(
        &lines(&["# keys", "", "bind a: true", "   ", "map b: a", "bind C-x C-s: save now"]),
        "keys.cfg",
    )
    .unwrap();
    assert_eq!(config.commands.len(), 3);
    assert_eq!(config.commands[0].keyseq.keys, vec![plain('a')]);
    assert_eq!(config.commands[1].keyseq.keys, vec![plain('b')]);
    assert_eq!(config.commands[2].keyseq.keys.len(), 2);
    assert!(parse_config(&lines(&[]), "keys.cfg").unwrap().commands.is_empty());
}

#[test]
fn parse_config_reports_first_error_with_its_line() {
    let err = parse_config(&lines(&["bind a: x", "oops", "also bad"]), "keys.cfg").unwrap_err();
    assert_eq!(
        err.to_string(),
        "Syntax error: keys.cfg:2:0\n     |\n   2 | oops\n     | ^^^^\nUnrecognized command \"oops\""
    );
}
