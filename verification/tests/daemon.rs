use ahkd::cfgfile::{parse_config, Action, Config, ConfigLine};
use ahkd::daemon::{
    daemon, get_init_keys, get_prefixes, match_keyseq, DaemonState, PrefixState, Request, SeqMatch,
};
use ahkd::keyseq::{Key, KeySequence, Keysym, ModField};
use ahkd::AhkdError;

fn key(control: bool, alt: bool, c: char) -> Key {
    Key {
        modifiers: ModField {
            mod_shift: false,
            mod_control: control,
            mod1: alt,
            mod2: false,
            mod3: false,
            mod4: false,
            mod5: false,
        },
        main_key: Keysym(c as u32),
    }
}

fn plain(c: char) -> Key {
    key(false, false, c)
}

fn ctrl(c: char) -> Key {
    key(true, false, c)
}

fn meta(c: char) -> Key {
    key(false, true, c)
}

fn bind(keys: Vec<Key>, command: &[&str]) -> ConfigLine {
    ConfigLine {
        keyseq: KeySequence { keys },
        action: Action::Bind { command: command.iter().map(|s| s.to_string()).collect() },
    }
}

fn remap(keys: Vec<Key>, to: Vec<Key>) -> ConfigLine {
    ConfigLine { keyseq: KeySequence { keys }, action: Action::Remap { to: KeySequence { keys: to } } }
}

fn emacs() -> Config {
    Config {
        commands: vec![
            bind(vec![ctrl('x'), ctrl('s')], &["cmd1"]),
            bind(vec![ctrl('x'), ctrl('f')], &["cmd2"]),
            bind(vec![meta('x')], &["cmd3"]),
        ],
    }
}

fn is_match(state: PrefixState, at: usize) -> bool {
    matches!(state, PrefixState::Match(i) if i == at)
}

fn is_prefix(state: PrefixState, keys: Vec<Key>) -> bool {
    matches!(state, PrefixState::Prefix(next) if next == keys)
}

fn show(requests: &[Request]) -> Vec<String> {
    requests.iter().map(|r| format!("{:?}", r)).collect()
}

#[test]
fn match_keyseq_cases() {
    let seq = KeySequence { keys: vec![ctrl('x'), ctrl('s')] };
    assert_eq!(match_keyseq(&seq, &[]), SeqMatch::Partial);
    assert_eq!(match_keyseq(&seq, &[ctrl('x')]), SeqMatch::Partial);
    assert_eq!(match_keyseq(&seq, &[ctrl('x'), ctrl('s')]), SeqMatch::Full);
    assert_eq!(match_keyseq(&seq, &[ctrl('s')]), SeqMatch::Mismatch);
    assert_eq!(match_keyseq(&seq, &[ctrl('x'), ctrl('z')]), SeqMatch::Mismatch);
    // Keys beyond the end of the sequence cannot lead to it.
    assert_eq!(match_keyseq(&seq, &[ctrl('x'), ctrl('s'), ctrl('s')]), SeqMatch::Mismatch);
    // Modifiers count.
    assert_eq!(match_keyseq(&seq, &[plain('x')]), SeqMatch::Mismatch);
}

#[test]
fn exact_match_priority() {
    let config = Config {
        commands: vec![bind(vec![plain('a')], &["full1"]), bind(vec![plain('a'), plain('b')], &["full2"])],
    };
    assert!(is_match(get_prefixes(&config, &[plain('a')]), 0));
    // The same with the longer binding first.
    let config = Config {
        commands: vec![bind(vec![plain('a'), plain('b')], &["full2"]), bind(vec![plain('a')], &["full1"])],
    };
    assert!(is_match(get_prefixes(&config, &[plain('a')]), 1));
    // Of two exact matches the first in the table wins.
    let config = Config {
        commands: vec![
            bind(vec![plain('z')], &["other"]),
            bind(vec![plain('a')], &["first"]),
            bind(vec![plain('a')], &["second"]),
        ],
    };
    assert!(is_match(get_prefixes(&config, &[plain('a')]), 1));
}

#[test]
fn partial_computation() {
    let config = emacs();
    assert!(is_prefix(get_prefixes(&config, &[]), vec![ctrl('x'), meta('x')]));
    assert!(is_prefix(get_prefixes(&config, &[ctrl('x')]), vec![ctrl('s'), ctrl('f')]));
    assert!(is_match(get_prefixes(&config, &[ctrl('x'), ctrl('s')]), 0));
    assert!(matches!(get_prefixes(&config, &[ctrl('x'), ctrl('z')]), PrefixState::DeadEnd));
}

#[test]
fn dead_end_for_unrelated_keys() {
    let config = emacs();
    assert!(matches!(get_prefixes(&config, &[plain('q')]), PrefixState::DeadEnd));
    assert!(matches!(
        get_prefixes(&config, &[ctrl('x'), ctrl('s'), ctrl('s')]),
        PrefixState::DeadEnd
    ));
    assert!(matches!(get_prefixes(&Config { commands: vec![] }, &[]), PrefixState::DeadEnd));
}

#[test]
fn evaluation_is_repeatable() {
    let config = emacs();
    for seen in [vec![], vec![ctrl('x')], vec![ctrl('x'), ctrl('f')], vec![plain('y')]] {
        let first = format!("{:?}", get_prefixes(&config, &seen));
        let second = format!("{:?}", get_prefixes(&config, &seen));
        assert_eq!(first, second);
    }
}

#[test]
fn init_keys_are_first_keys_once_each() {
    assert_eq!(get_init_keys(&emacs()), vec![ctrl('x'), meta('x')]);
    assert_eq!(get_init_keys(&Config { commands: vec![] }), vec![]);
}

#[test]
fn start_needs_a_command() {
    assert!(matches!(
        DaemonState::start(&Config { commands: vec![] }),
        Err(AhkdError::NoKeysError)
    ));
    let (state, requests) = DaemonState::start(&emacs()).unwrap();
    assert!(matches!(state, DaemonState::Idle));
    assert_eq!(show(&requests), show(&[Request::GrabKeys(vec![ctrl('x'), meta('x')])]));
}

#[test]
fn end_to_end_single_key() {
    let config = Config { commands: vec![bind(vec![ctrl('a')], &["/bin/true"])] };
    let (state, start) = DaemonState::start(&config).unwrap();
    assert_eq!(show(&start), show(&[Request::GrabKeys(vec![ctrl('a')])]));
    let (state, requests) = daemon(&config, state, ctrl('a'));
    assert!(matches!(state, DaemonState::Idle));
    assert_eq!(
        show(&requests),
        show(&[
            Request::UngrabKeys(vec![ctrl('a')]),
            Request::GrabKeyboard,
            Request::UngrabKeyboard,
            Request::Spawn(0),
            Request::GrabKeys(vec![ctrl('a')]),
        ])
    );
    match &config.commands[0].action {
        Action::Bind { command } => assert_eq!(command, &vec!["/bin/true".to_string()]),
        Action::Remap { .. } => panic!("expected a bind"),
    }
}

#[test]
fn multi_key_sequence_holds_the_keyboard() {
    let config = emacs();
    let (state, requests) = daemon(&config, DaemonState::Idle, ctrl('x'));
    assert!(matches!(&state, DaemonState::Listening(seen) if seen == &vec![ctrl('x')]));
    assert_eq!(
        show(&requests),
        show(&[Request::UngrabKeys(vec![ctrl('x'), meta('x')]), Request::GrabKeyboard])
    );
    let (state, requests) = daemon(&config, state, ctrl('f'));
    assert!(matches!(state, DaemonState::Idle));
    assert_eq!(
        show(&requests),
        show(&[
            Request::UngrabKeyboard,
            Request::Spawn(1),
            Request::GrabKeys(vec![ctrl('x'), meta('x')]),
        ])
    );
}

#[test]
fn dead_end_drops_the_key() {
    let config = emacs();
    let (state, _) = daemon(&config, DaemonState::Idle, ctrl('x'));
    let (state, requests) = daemon(&config, state, ctrl('z'));
    assert!(matches!(state, DaemonState::Idle));
    assert_eq!(
        show(&requests),
        show(&[Request::UngrabKeyboard, Request::GrabKeys(vec![ctrl('x'), meta('x')])])
    );
    // A key that begins nothing, pressed while idle.
    let (state, requests) = daemon(&config, DaemonState::Idle, plain('q'));
    assert!(matches!(state, DaemonState::Idle));
    assert_eq!(
        show(&requests),
        show(&[
            Request::UngrabKeys(vec![ctrl('x'), meta('x')]),
            Request::GrabKeyboard,
            Request::UngrabKeyboard,
            Request::GrabKeys(vec![ctrl('x'), meta('x')]),
        ])
    );
}

#[test]
fn remap_is_followed() {
    let config = Config {
        commands: vec![
            remap(vec![plain('a')], vec![plain('b'), plain('c')]),
            bind(vec![plain('b'), plain('c')], &["run"]),
            remap(vec![plain('d')], vec![plain('b')]),
            remap(vec![plain('e')], vec![plain('a')]),
        ],
    };
    // To a complete sequence.
    let (state, requests) = daemon(&config, DaemonState::Idle, plain('a'));
    assert!(matches!(state, DaemonState::Idle));
    assert!(show(&requests).contains(&format!("{:?}", Request::Spawn(1))));
    // To the beginning of one: the daemon goes on listening from there.
    let (state, requests) = daemon(&config, DaemonState::Idle, plain('d'));
    assert!(matches!(&state, DaemonState::Listening(seen) if seen == &vec![plain('b')]));
    assert_eq!(requests.len(), 2);
    let (state, requests) = daemon(&config, state, plain('c'));
    assert!(matches!(state, DaemonState::Idle));
    assert!(show(&requests).contains(&format!("{:?}", Request::Spawn(1))));
    // Through two maps.
    let (_, requests) = daemon(&config, DaemonState::Idle, plain('e'));
    assert!(show(&requests).contains(&format!("{:?}", Request::Spawn(1))));
}

#[test]
fn remap_cycle_is_dropped() {
    let config = Config {
        commands: vec![
            remap(vec![plain('a')], vec![plain('b')]),
            remap(vec![plain('b')], vec![plain('a')]),
        ],
    };
    let (state, requests) = daemon(&config, DaemonState::Idle, plain('a'));
    assert!(matches!(state, DaemonState::Idle));
    assert_eq!(
        show(&requests),
        show(&[
            Request::UngrabKeys(vec![plain('a'), plain('b')]),
            Request::GrabKeyboard,
            Request::UngrabKeyboard,
            Request::GrabKeys(vec![plain('a'), plain('b')]),
        ])
    );
    // A map to something unbound is dropped as well.
    let config = Config { commands: vec![remap(vec![plain('a')], vec![plain('z')])] };
    let (state, requests) = daemon(&config, DaemonState::Idle, plain('a'));
    assert!(matches!(state, DaemonState::Idle));
    assert_eq!(requests.len(), 4);
}

#[test]
fn grabs_balance_over_a_run() {
    let lines: Vec<String> = ["bind C-x C-s: save", "bind C-x C-f: find", "map M-x: C-x C-s", "bind q: quit"]
        .iter()
        .map(|s| s.to_string())
        .collect();
    let config = parse_config(&lines, "keys.cfg").unwrap();
    let init = get_init_keys(&config);
    let (mut state, mut requests) = DaemonState::start(&config).unwrap();
    let mut keys_held: Vec<Key> = vec![];
    let mut keyboard_held = 0;
    let mut spawned = vec![];
    let presses =
        [ctrl('x'), ctrl('s'), plain('q'), ctrl('x'), plain('z'), meta('x'), plain('y'), ctrl('x'), ctrl('f')];
    let mut next = 0;
    loop {
        for request in &requests {
            match request {
                Request::GrabKeys(keys) => {
                    assert_eq!(keyboard_held, 0);
                    keys_held.extend(keys.iter().copied());
                }
                Request::UngrabKeys(keys) => {
                    for k in keys {
                        let at = keys_held.iter().position(|h| h == k).unwrap();
                        keys_held.remove(at);
                    }
                }
                Request::GrabKeyboard => {
                    assert!(keys_held.is_empty());
                    assert_eq!(keyboard_held, 0);
                    keyboard_held += 1;
                }
                Request::UngrabKeyboard => {
                    assert_eq!(keyboard_held, 1);
                    keyboard_held -= 1;
                }
                Request::Spawn(i) => {
                    assert_eq!(keyboard_held, 0);
                    spawned.push(*i);
                }
            }
        }
        match &state {
            DaemonState::Idle => {
                assert_eq!(keys_held, init);
                assert_eq!(keyboard_held, 0);
            }
            DaemonState::Listening(_) => {
                assert!(keys_held.is_empty());
                assert_eq!(keyboard_held, 1);
            }
        }
        if next == presses.len() {
            break;
        }
        let step = daemon(&config, state, presses[next]);
        state = step.0;
        requests = step.1;
        next += 1;
    }
    assert_eq!(spawned, vec![0, 3, 0, 1]);
}
