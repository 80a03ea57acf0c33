use ahkd::cfgfile::{Action, Config, ConfigLine};
use ahkd::keyseq::{Key, KeySequence, Keysym, ModField};
use ahkd::x11::{key_of_press, keyboard_grabbed, keycode_count, KeyGrab, KeyMap, KeyboardMapping};
use ahkd::AhkdError;

fn mods(bits: [bool; 7]) -> ModField {
    ModField {
        mod_shift: bits[0],
        mod_control: bits[1],
        mod1: bits[2],
        mod2: bits[3],
        mod3: bits[4],
        mod4: bits[5],
        mod5: bits[6],
    }
}

fn layout() -> KeyMap {
    // Keycodes 8 to 11, two keysyms each: a A, b B, A A, Shift_L NoSymbol.
    KeyMap::new(
        8,
        KeyboardMapping {
            keysyms_per_keycode: 2,
            keysyms: vec![0x61, 0x41, 0x62, 0x42, 0x41, 0x41, 0xffe1, 0],
        },
    )
}

#[test]
fn modifier_masks_are_the_protocol_bits() {
    let none = [false; 7];
    assert_eq!(u16::from(&mods(none)), 0);
    let expected: [u16; 7] = [0x01, 0x04, 0x08, 0x10, 0x20, 0x40, 0x80];
    for i in 0..7 {
        let mut bits = none;
        bits[i] = true;
        assert_eq!(u16::from(&mods(bits)), expected[i]);
        assert_eq!(ModField::from(expected[i]), mods(bits));
    }
    assert_eq!(u16::from(&mods([true; 7])), 0xfd);
    assert_eq!(
        u16::from(&mods([true, false, true, false, false, true, false])),
        0x49
    );
}

#[test]
fn modifier_mask_round_trip() {
    for n in 0..128usize {
        let bits = [n & 1 != 0, n & 2 != 0, n & 4 != 0, n & 8 != 0, n & 16 != 0, n & 32 != 0, n & 64 != 0];
        assert_eq!(ModField::from(u16::from(&mods(bits))), mods(bits));
    }
    // The Lock bit and the bits above the modifiers are ignored.
    assert_eq!(ModField::from(0xff02), mods([false; 7]));
    assert_eq!(ModField::from(0x0006), mods([false, true, false, false, false, false, false]));
}

#[test]
fn keymap_primary_keysym_and_lowest_keycode() {
    let map = layout();
    assert_eq!(map.keycode_to_keysym(8), Keysym(0x61));
    assert_eq!(map.keycode_to_keysym(9), Keysym(0x62));
    assert_eq!(map.keycode_to_keysym(10), Keysym(0x41));
    assert_eq!(map.keycode_to_keysym(11), Keysym(0xffe1));
    assert!(map.has_keycode(8) && map.has_keycode(11));
    assert!(!map.has_keycode(7) && !map.has_keycode(12));
    assert_eq!(map.keysym_to_keycode(Keysym(0x61)).unwrap(), 8);
    assert_eq!(map.keysym_to_keycode(Keysym(0x62)).unwrap(), 9);
    // Produced by keycodes 8 and 10: the lowest stands for it.
    assert_eq!(map.keysym_to_keycode(Keysym(0x41)).unwrap(), 8);
    assert_eq!(map.keysym_to_keycode(Keysym(0x42)).unwrap(), 9);
    assert!(matches!(
        map.keysym_to_keycode(Keysym(0x7a)),
        Err(AhkdError::UnknownKeysym(0x7a))
    ));
}

#[test]
fn keymap_of_an_empty_or_ragged_mapping() {
    let empty = KeyMap::new(8, KeyboardMapping { keysyms_per_keycode: 1, keysyms: vec![] });
    assert!(!empty.has_keycode(8));
    assert!(empty.keysym_to_keycode(Keysym(0x61)).is_err());
    // A last keycode with fewer keysyms than the others still counts.
    let ragged =
        KeyMap::new(250, KeyboardMapping { keysyms_per_keycode: 3, keysyms: vec![1, 2, 3, 4] });
    assert_eq!(ragged.keycode_to_keysym(250), Keysym(1));
    assert_eq!(ragged.keycode_to_keysym(251), Keysym(4));
    assert!(!ragged.has_keycode(252));
    assert_eq!(ragged.keysym_to_keycode(Keysym(3)).unwrap(), 250);
    assert_eq!(ragged.keysym_to_keycode(Keysym(4)).unwrap(), 251);
    let top = KeyMap::new(255, KeyboardMapping { keysyms_per_keycode: 1, keysyms: vec![9] });
    assert_eq!(top.keycode_to_keysym(255), Keysym(9));
    assert_eq!(top.keysym_to_keycode(Keysym(9)).unwrap(), 255);
}

#[test]
fn codec_round_trip() {
    let map = KeyMap::new(
        8,
        KeyboardMapping { keysyms_per_keycode: 2, keysyms: vec![0x61, 0x41, 0x62, 0x42, 0x61, 0x41] },
    );
    for code in 8..=10u8 {
        let keysym = map.keycode_to_keysym(code);
        let back = map.keysym_to_keycode(keysym).unwrap();
        assert!(back <= code);
        assert_eq!(map.keycode_to_keysym(back), keysym);
        assert_eq!(map.keysym_to_keycode(map.keycode_to_keysym(back)).unwrap(), back);
    }
}

#[test]
fn key_grabs_in_order() {
    let map = layout();
    let control = mods([false, true, false, false, false, false, false]);
    let keys = [
        Key { modifiers: control, main_key: Keysym(0x62) },
        Key { modifiers: mods([false; 7]), main_key: Keysym(0x41) },
    ];
    assert_eq!(
        map.key_grabs(&keys).unwrap(),
        vec![KeyGrab { key: 9, modifiers: 0x04 }, KeyGrab { key: 8, modifiers: 0 }]
    );
    assert_eq!(map.key_grabs(&[]).unwrap(), vec![]);
    let unknown = [
        keys[0],
        Key { modifiers: control, main_key: Keysym(0x70) },
        Key { modifiers: control, main_key: Keysym(0x71) },
    ];
    assert!(matches!(map.key_grabs(&unknown), Err(AhkdError::UnknownKeysym(0x70))));
}

#[test]
fn key_press_of_a_character_key() {
    let map = layout();
    let control = mods([false, true, false, false, false, false, false]);
    assert_eq!(
        map.event_to_key(8, 0x04),
        Some(Key { modifiers: control, main_key: Keysym(0x61) })
    );
    assert_eq!(
        map.event_to_key(9, 0),
        Some(Key { modifiers: mods([false; 7]), main_key: Keysym(0x62) })
    );
}

#[test]
fn key_press_of_a_bare_modifier_is_discarded() {
    let map = layout();
    // Shift_L carries no character.
    assert_eq!(map.event_to_key(11, 0), None);
    // A keycode that the keyboard does not have.
    assert_eq!(map.event_to_key(200, 0), None);
}

#[test]
fn key_of_press_cases() {
    let shift = mods([true, false, false, false, false, false, false]);
    assert_eq!(
        key_of_press(Keysym(0x41), Some('A'), 0x01),
        Some(Key { modifiers: shift, main_key: Keysym(0x41) })
    );
    assert_eq!(key_of_press(Keysym(0xffe1), Some('\0'), 0x01), None);
    assert_eq!(key_of_press(Keysym(0x12345), None, 0), None);
}

#[test]
fn error_messages() {
    assert_eq!(AhkdError::UsageError("ahkd".to_string()).to_string(), "Usage: ahkd <file>");
    assert_eq!(AhkdError::X11Error("broken pipe".to_string()).to_string(), "X11 error: broken pipe");
    assert_eq!(
        AhkdError::NoKeysError.to_string(),
        "Nothing to do\nAt least one command is required in the configuration file."
    );
    assert_eq!(AhkdError::KeyboardGrabError.to_string(), "Unable to grab keyboard");
    assert_eq!(
        AhkdError::UnknownKeysym(65307).to_string(),
        "No key of this keyboard produces keysym 65307"
    );
    assert_eq!(
        AhkdError::UnknownKeysym(0).to_string(),
        "No key of this keyboard produces keysym 0"
    );
}

#[test]
fn check_bindings_names_the_first_unknown_keysym() {
    let map = layout();
    let plain = |keysym: u32| Key { modifiers: mods([false; 7]), main_key: Keysym(keysym) };
    let line = |keys: Vec<Key>, to: Vec<Key>| ConfigLine {
        keyseq: KeySequence { keys },
        action: Action::Remap { to: KeySequence { keys: to } },
    };
    let good = Config {
        commands: vec![
            line(vec![plain(0x61), plain(0x42)], vec![plain(0x7a)]),
            line(vec![plain(0xffe1)], vec![plain(0x61)]),
        ],
    };
    assert!(map.check_bindings(&good).is_ok());
    assert!(map.check_bindings(&Config { commands: vec![] }).is_ok());
    let bad = Config {
        commands: vec![
            line(vec![plain(0x61)], vec![plain(0x61)]),
            line(vec![plain(0x62), plain(0x78), plain(0x79)], vec![plain(0x61)]),
            line(vec![plain(0x77)], vec![plain(0x61)]),
        ],
    };
    assert!(matches!(map.check_bindings(&bad), Err(AhkdError::UnknownKeysym(0x78))));
}

#[test]
fn keycode_count_of_a_range() {
    assert_eq!(keycode_count(8, 255), Some(248));
    assert_eq!(keycode_count(8, 8), Some(1));
    assert_eq!(keycode_count(1, 255), Some(255));
    assert_eq!(keycode_count(0, 255), None);
    assert_eq!(keycode_count(9, 8), None);
}

#[test]
fn mapping_fits_up_to_keycode_255() {
    let mapping = |per: u8, n: usize| KeyboardMapping { keysyms_per_keycode: per, keysyms: vec![1; n] };
    assert!(mapping(2, 0).fits(255));
    assert!(mapping(2, 2).fits(255));
    assert!(!mapping(2, 3).fits(255));
    assert!(mapping(7, 248 * 7).fits(8));
    assert!(!mapping(7, 248 * 7 + 1).fits(8));
    assert!(!mapping(0, 0).fits(8));
    assert!(!mapping(0, 5).fits(8));
}

#[test]
fn keyboard_grab_status() {
    assert!(keyboard_grabbed(0).is_ok());
    // Already grabbed, invalid time, not viewable, frozen.
    for status in 1..=4u8 {
        assert!(matches!(keyboard_grabbed(status), Err(AhkdError::KeyboardGrabError)));
    }
    assert!(matches!(keyboard_grabbed(255), Err(AhkdError::KeyboardGrabError)));
}
