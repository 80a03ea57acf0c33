use ahkd::cfgfile::LineText;
use ahkd::keyseq::{Key, KeySequence, Keysym, ModField};
use std::convert::{TryFrom, TryInto};

/// Constructs a LineText from the given string, using some
/// template values for testing.
fn mk_lt<'a>(text: &'a str) -> LineText<'a> {
    LineText::new("foo.txt", 10, text)
}

#[test]
fn keysym_parse_test() {
    // Test keysym parse results against results from xev.
    let from_codepoint: Keysym = mk_lt("[").try_into().unwrap();
    assert_eq!(from_codepoint, Keysym(0x5b));

    let from_name: Keysym = mk_lt("bracketleft").try_into().unwrap();
    assert_eq!(from_name, Keysym(0x5b));
}

#[test]
fn key_parse_test() {
    // Basic Emacs-style keybinding.
    let key: Key = mk_lt("C-M-x").try_into().unwrap();
    assert_eq!(
        key,
        Key {
            main_key: mk_lt("x").try_into().unwrap(),
            modifiers: ModField {
                mod_shift: false,
                mod_control: true,
                mod1: true,
                mod2: false,
                mod3: false,
                mod4: false,
                mod5: false,
            }
        }
    );
}

#[test]
fn ambiguous_modifier_parse_test() {
    // Could be interpreted as "control", but should be
    // interpreted as just a capital C.
    let key: Key = mk_lt("C").try_into().unwrap();
    assert_eq!(
        key,
        Key {
            main_key: mk_lt("C").try_into().unwrap(),
            modifiers: ModField {
                mod_shift: false,
                mod_control: false,
                mod1: false,
                mod2: false,
                mod3: false,
                mod4: false,
                mod5: false,
            }
        }
    );
}

#[test]
fn missing_main_key_parse_test() {
    // A keybinding without a main key.
    let invalid = Key::try_from(mk_lt("C-M-"));
    assert!(invalid.is_err());
}

#[test]
fn long_key_name_parse_test() {
    // Long key names.
    let key: Key = mk_lt("control-meta-super-shift-hyper-z")
        .try_into()
        .unwrap();
    assert_eq!(
        key,
        Key {
            main_key: mk_lt("z").try_into().unwrap(),
            modifiers: ModField {
                mod_shift: true,
                mod_control: true,
                mod1: true,
                mod2: false,
                mod3: false,
                mod4: true,
                mod5: false,
            }
        }
    );
}

#[test]
fn short_case_sensitive_parse_test() {
    // Short key names should be case sensitive.
    let key: Key = mk_lt("C-z").try_into().unwrap();
    let invalid = Key::try_from(mk_lt("c-z"));

    assert_eq!(
        key,
        Key {
            main_key: mk_lt("z").try_into().unwrap(),
            modifiers: ModField {
                mod_shift: false,
                mod_control: true,
                mod1: false,
                mod2: false,
                mod3: false,
                mod4: false,
                mod5: false,
            }
        }
    );
    assert!(invalid.is_err());
}

#[test]
fn long_non_case_sensitive_parse_test() {
    // Long key names should not be case-sensitive.
    let key: Key = mk_lt("CoNtRoL-MeTa-sUpEr-z").try_into().unwrap();
    assert_eq!(
        key,
        Key {
            main_key: mk_lt("z").try_into().unwrap(),
            modifiers: ModField {
                mod_shift: false,
                mod_control: true,
                mod1: true,
                mod2: false,
                mod3: false,
                mod4: true,
                mod5: false,
            }
        }
    );
}

#[test]
fn multi_key_binding_test() {
    // KeySequences consisting of multiple keys, separated by
    // whitespace.
    let kb: KeySequence = mk_lt("  C-x M-g\t    \nM-z  ").try_into().unwrap();
    assert_eq!(
        kb,
        KeySequence {
            keys: vec![
                Key {
                    main_key: mk_lt("x").try_into().unwrap(),
                    modifiers: ModField {
                        mod_shift: false,
                        mod_control: true,
                        mod1: false,
                        mod2: false,
                        mod3: false,
                        mod4: false,
                        mod5: false,
                    },
                },
                Key {
                    main_key: mk_lt("g").try_into().unwrap(),
                    modifiers: ModField {
                        mod_shift: false,
                        mod_control: false,
                        mod1: true,
                        mod2: false,
                        mod3: false,
                        mod4: false,
                        mod5: false,
                    },
                },
                Key {
                    main_key: mk_lt("z").try_into().unwrap(),
                    modifiers: ModField {
                        mod_shift: false,
                        mod_control: false,
                        mod1: true,
                        mod2: false,
                        mod3: false,
                        mod4: false,
                        mod5: false,
                    },
                },
            ],
        }
    )
}

#[test]
fn every_modifier_name() {
    let cases: Vec<(&str, [bool; 4])> = vec![
        // shift, control, mod1, mod4
        ("C", [false, true, false, false]),
        ("A", [false, false, true, false]),
        ("M", [false, false, true, false]),
        ("s", [false, false, false, true]),
        ("S", [true, false, false, false]),
        ("h", [false, false, false, true]),
        ("control", [false, true, false, false]),
        ("Ctrl", [false, true, false, false]),
        ("ALT", [false, false, true, false]),
        ("meta", [false, false, true, false]),
        ("super", [false, false, false, true]),
        ("Windows", [false, false, false, true]),
        ("command", [false, false, false, true]),
        ("SHIFT", [true, false, false, false]),
        ("hyper", [false, false, false, true]),
    ];
    for (name, flags) in cases {
        let mut mods = ModField::new();
        assert!(mods.add(&mk_lt(name)).is_ok());
        assert_eq!(
            mods,
            ModField {
                mod_shift: flags[0],
                mod_control: flags[1],
                mod1: flags[2],
                mod2: false,
                mod3: false,
                mod4: flags[3],
                mod5: false,
            }
        );
    }
}

#[test]
fn invalid_modifier_is_reported_and_changes_nothing() {
    let mut mods = ModField::new();
    assert!(mods.add(&mk_lt("S")).is_ok());
    let err = mods.add(&mk_lt("a")).unwrap_err();
    assert_eq!(
        err.to_string(),
        "Syntax error: foo.txt:10:0\n     |\n  10 | a\n     | ^\nInvalid modifier \"a\""
    );
    assert_eq!(
        mods,
        ModField {
            mod_shift: true,
            mod_control: false,
            mod1: false,
            mod2: false,
            mod3: false,
            mod4: false,
            mod5: false,
        }
    );
}

#[test]
fn plus_separates_modifiers_too() {
    let key: Key = mk_lt("ctrl+alt-Delete").try_into().unwrap();
    assert_eq!(key.main_key, Keysym(0xffff));
    assert!(key.modifiers.mod_control && key.modifiers.mod1 && !key.modifiers.mod_shift);
}

#[test]
fn invalid_keysym_error_points_at_the_word() {
    let err = Key::try_from(mk_lt("C-M-")).unwrap_err();
    assert_eq!(
        err.to_string(),
        "Syntax error: foo.txt:10:4\n     |\n  10 | C-M-\n     |     ^\nInvalid keysym \"\""
    );
    let err = Keysym::try_from(mk_lt("nosuchkeysym")).unwrap_err();
    assert_eq!(
        err.to_string(),
        "Syntax error: foo.txt:10:0\n     |\n  10 | nosuchkeysym\n     | ^^^^^^^^^^^^\nInvalid keysym \"nosuchkeysym\""
    );
}

#[test]
fn keysym_lookup_is_not_the_identity() {
    // A name is looked up, not echoed: "space" is keysym 0x20.
    assert_eq!(Keysym::try_from(mk_lt("space")).unwrap(), Keysym(0x20));
    assert_eq!(Keysym::try_from(mk_lt("Return")).unwrap(), Keysym(0xff0d));
    // A character of two bytes is looked up as a name, and is none.
    assert!(Keysym::try_from(mk_lt("\u{e9}")).is_err());
    assert_eq!(Keysym::from_lookup(mk_lt("x"), Some(7)).unwrap(), Keysym(7));
    assert!(Keysym::from_lookup(mk_lt("x"), None).is_err());
}

#[test]
fn empty_key_sequence_is_rejected() {
    assert!(KeySequence::try_from(mk_lt("")).is_err());
    assert!(KeySequence::try_from(mk_lt("  \t ")).is_err());
    assert!(KeySequence::try_from(mk_lt("a C-")).is_err());
    assert_eq!(KeySequence::try_from(mk_lt(" a ")).unwrap().keys.len(), 1);
}
