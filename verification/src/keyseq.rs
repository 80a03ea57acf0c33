//! Keys, modifiers and key sequences.

use crate::cfgfile::{
    views_of, LineSplitView, LineText, LineTextView, SyntaxError, SyntaxErrorView,
};
use crate::text::{ascii_lower, follows, is_white_space, str_eq, to_ascii_lowercase};
use vstd::prelude::*;
use vstd::std_specs::convert::TryFromSpecImpl;
use vstd::utf8::encode_utf8;

verus! {

/// A sequence of keys that might be pressed. This is the selector of the
/// `map` and `bind` commands, and the target of the `map` command.
#[derive(PartialEq, Debug)]
pub struct KeySequence {
    pub keys: Vec<Key>,
}

/// A key, with zero or more modifiers applied.
#[derive(PartialEq, Eq, Structural, Debug, Clone, Copy)]
pub struct Key {
    pub modifiers: ModField,
    pub main_key: Keysym,
}

/// A set of modifiers that might be applied to a key.
#[derive(PartialEq, Eq, Structural, Debug, Clone, Copy)]
pub struct ModField {
    pub mod_shift: bool,
    pub mod_control: bool,
    pub mod1: bool,  // Alt, Meta
    pub mod2: bool,  // Num lock
    pub mod3: bool,  // Unused
    pub mod4: bool,  // Super, Hyper
    pub mod5: bool,  // Unused
}

/// The number corresponding to a symbol on a specific key.
#[derive(PartialEq, Eq, Structural, Debug, Clone, Copy)]
pub struct Keysym(pub u32);

impl View for KeySequence {
    type V = Seq<Key>;

    open spec fn view(&self) -> Seq<Key> {
        self.keys@
    }
}

/// The keysym that the keysym table of `x11_keysymdef` records under a
/// name, if the table knows the name.
pub uninterp spec fn keysym_by_name(name: Seq<char>) -> Option<u32>;

/// The keysym that the keysym table of `x11_keysymdef` records for a
/// character, if the table knows the character.
pub uninterp spec fn keysym_by_codepoint(codepoint: char) -> Option<u32>;

/// Looks a name up with `x11_keysymdef::lookup_by_name` and hands out the
/// keysym of the record found. The lookup reads a fixed table, so the
/// contract gives its answer a name.
#[verifier::external_body]
fn lookup_name(name: &str) -> (r: Option<u32>)
    ensures
        r == keysym_by_name(name@),
{
    x11_keysymdef::lookup_by_name(name).map(|record| record.keysym)
}

/// Looks a character up with `x11_keysymdef::lookup_by_codepoint` and hands
/// out the keysym of the record found. The lookup reads a fixed table, so
/// the contract gives its answer a name.
#[verifier::external_body]
fn lookup_codepoint(codepoint: char) -> (r: Option<u32>)
    ensures
        r == keysym_by_codepoint(codepoint),
{
    x11_keysymdef::lookup_by_codepoint(codepoint).map(|record| record.keysym)
}

/// The keysym that a word stands for: a word of one byte is looked up as a
/// character, any other word as a name.
pub open spec fn keysym_named(word: Seq<char>) -> Option<u32> {
    if encode_utf8(word).len() == 1 {
        keysym_by_codepoint(word[0])
    } else {
        keysym_by_name(word)
    }
}

/// The message of the error for a word that stands for no keysym.
pub open spec fn invalid_keysym_msg(word: Seq<char>) -> Seq<char> {
    "Invalid keysym \""@ + word + "\""@
}

/// What a word that should name a keysym parses to, given what the lookup
/// of the word found.
pub open spec fn keysym_found(text: LineTextView, found: Option<u32>) -> Result<
    Keysym,
    SyntaxErrorView,
> {
    match found {
        Some(keysym) => Ok(Keysym(keysym)),
        None => Err(text.error(invalid_keysym_msg(text.chars()))),
    }
}

/// What a word that should name a keysym parses to.
pub open spec fn parse_keysym(text: LineTextView) -> Result<Keysym, SyntaxErrorView> {
    keysym_found(text, keysym_named(text.chars()))
}

/// Whether a parse result is the expected one: the same value, or an error
/// with the same contents.
pub open spec fn is_parsed<T>(r: Result<T, SyntaxError>, expected: Result<T, SyntaxErrorView>)
    -> bool {
    match expected {
        Ok(value) => r matches Ok(v) && v == value,
        Err(error) => r matches Err(e) && e@ == error,
    }
}

impl Keysym {
    /// Makes the keysym that a word stands for from what the lookup of the
    /// word found, or the error that points at the word.
    pub fn from_lookup(text: LineText<'_>, found: Option<u32>) -> (r: Result<Keysym, SyntaxError>)
        ensures
            is_parsed(r, keysym_found(text@, found)),
    {
        match found {
            Some(keysym) => Ok(Keysym(keysym)),
            None => {
                let mut msg = "Invalid keysym \"".to_owned();
                msg.append(text.as_str());
                msg.append("\"");
                Err(text.to_error(msg))
            },
        }
    }
}

/// The conversion makes no promise about equal values, which an error with
/// its strings cannot be held to: what `try_from` returns is stated in its
/// own contract, over views.
impl<'a> TryFromSpecImpl<LineText<'a>> for Keysym {
    open spec fn obeys_try_from_spec() -> bool {
        false
    }

    open spec fn try_from_spec(text: LineText<'a>) -> Result<Self, SyntaxError> {
        arbitrary()
    }
}

impl<'a> TryFrom<LineText<'a>> for Keysym {
    type Error = SyntaxError;

    /// Parses a word as a keysym: a word of one byte as the character it
    /// is, any other word as the name of a keysym.
    fn try_from(text: LineText<'a>) -> (r: Result<Self, SyntaxError>)
        ensures
            is_parsed(r, parse_keysym(text@)),
    {
        let word = text.as_str();
        let found = if text.len() == 1 {
            proof {
                assert(word@.len() > 0) by {
                    if word@.len() == 0 {
                        assert(encode_utf8(word@).len() == 0);
                    }
                }
            }
            lookup_codepoint(word.get_char(0))
        } else {
            lookup_name(word)
        };
        Keysym::from_lookup(text, found)
    }
}

/// The set of modifiers `mods` with the modifier of the given name added,
/// if the name is that of a modifier. The short names count as written; the
/// long names count in upper or lower case.
pub open spec fn with_modifier(mods: ModField, name: Seq<char>) -> Option<ModField> {
    let low = ascii_lower(name);
    if name == "C"@ {
        Some(ModField { mod_control: true, ..mods })
    } else if name == "A"@ || name == "M"@ {
        Some(ModField { mod1: true, ..mods })
    } else if name == "s"@ {
        Some(ModField { mod4: true, ..mods })
    } else if name == "S"@ {
        Some(ModField { mod_shift: true, ..mods })
    } else if name == "h"@ {
        Some(ModField { mod4: true, ..mods })
    } else if low == "control"@ || low == "ctrl"@ {
        Some(ModField { mod_control: true, ..mods })
    } else if low == "alt"@ || low == "meta"@ {
        Some(ModField { mod1: true, ..mods })
    } else if low == "super"@ || low == "windows"@ || low == "command"@ {
        Some(ModField { mod4: true, ..mods })
    } else if low == "shift"@ {
        Some(ModField { mod_shift: true, ..mods })
    } else if low == "hyper"@ {
        Some(ModField { mod4: true, ..mods })
    } else {
        None
    }
}

/// The message of the error for a word that names no modifier.
pub open spec fn invalid_modifier_msg(word: Seq<char>) -> Seq<char> {
    "Invalid modifier \""@ + word + "\""@
}

/// The empty set of modifiers.
pub open spec fn no_modifiers() -> ModField {
    ModField {
        mod_shift: false,
        mod_control: false,
        mod1: false,
        mod2: false,
        mod3: false,
        mod4: false,
        mod5: false,
    }
}

/// The set of modifiers that the words add to `mods`, or the error that
/// points at the first word that names no modifier.
pub open spec fn parse_modifiers(words: Seq<LineTextView>, mods: ModField) -> Result<
    ModField,
    SyntaxErrorView,
>
    decreases words.len(),
{
    if words.len() == 0 {
        Ok(mods)
    } else {
        match with_modifier(mods, words[0].chars()) {
            Some(more) => parse_modifiers(words.drop_first(), more),
            None => Err(words[0].error(invalid_modifier_msg(words[0].chars()))),
        }
    }
}

/// The test that separates the modifiers of a key from each other and
/// from the key.
pub open spec fn dash_or_plus() -> spec_fn(char) -> bool {
    |c: char| c == '-' || c == '+'
}

/// The test for white space.
pub open spec fn white_space() -> spec_fn(char) -> bool {
    |c: char| is_white_space(c)
}

/// The sections of a text between the characters of which `pred` holds;
/// without the empty ones where `merge` is set.
pub open spec fn sections_of(text: LineTextView, pred: spec_fn(char) -> bool, merge: bool) -> Seq<
    LineTextView,
> {
    (LineSplitView { done: false, rest: text, merge }).sections(pred)
}

/// What a word parses to as a key: its sections between `-` and `+` are
/// modifiers, all but the last, which is the keysym.
pub open spec fn parse_key(text: LineTextView) -> Result<Key, SyntaxErrorView> {
    let parts = sections_of(text, dash_or_plus(), false);
    match parse_modifiers(parts.drop_last(), no_modifiers()) {
        Ok(modifiers) => match parse_keysym(parts.last()) {
            Ok(main_key) => Ok(Key { modifiers, main_key }),
            Err(e) => Err(e),
        },
        Err(e) => Err(e),
    }
}

/// The keys in front of what the rest parses to.
pub open spec fn keys_then(keys: Seq<Key>, rest: Result<Seq<Key>, SyntaxErrorView>) -> Result<
    Seq<Key>,
    SyntaxErrorView,
> {
    match rest {
        Ok(more) => Ok(keys + more),
        Err(e) => Err(e),
    }
}

/// The keys that the words parse to, or the error of the first word that
/// does not parse.
pub open spec fn parse_keys(words: Seq<LineTextView>) -> Result<Seq<Key>, SyntaxErrorView>
    decreases words.len(),
{
    if words.len() == 0 {
        Ok(Seq::empty())
    } else {
        match parse_key(words[0]) {
            Ok(key) => keys_then(Seq::empty().push(key), parse_keys(words.drop_first())),
            Err(e) => Err(e),
        }
    }
}

/// What a text parses to as a key sequence: its words, separated by white
/// space, are keys, and there is at least one.
pub open spec fn parse_key_sequence(text: LineTextView) -> Result<Seq<Key>, SyntaxErrorView> {
    let words = sections_of(text, white_space(), true);
    if words.len() == 0 {
        Err(text.error("Expected a key sequence"@))
    } else {
        parse_keys(words)
    }
}

impl ModField {
    /// The empty set of modifiers.
    pub fn new() -> (r: ModField)
        ensures
            r == no_modifiers(),
    {
        ModField {
            mod_shift: false,
            mod_control: false,
            mod1: false,
            mod2: false,
            mod3: false,
            mod4: false,
            mod5: false,
        }
    }

    /// Attempts to add a modifier key with the given name.
    pub fn add(&mut self, modifier: &LineText<'_>) -> (r: Result<(), SyntaxError>)
        ensures
            match with_modifier(*old(self), modifier@.chars()) {
                Some(mods) => r is Ok && *final(self) == mods,
                None => r matches Err(e) && e@ == modifier@.error(
                    invalid_modifier_msg(modifier@.chars()),
                ) && *final(self) == *old(self),
            },
            modifier@.wf(),
    {
        let text = modifier.as_str();
        if str_eq(text, "C") {
            self.mod_control = true;
        } else if str_eq(text, "A") || str_eq(text, "M") {
            self.mod1 = true;
        } else if str_eq(text, "s") {
            self.mod4 = true;
        } else if str_eq(text, "S") {
            self.mod_shift = true;
        } else if str_eq(text, "h") {
            self.mod4 = true;
        } else {
            let lowered = to_ascii_lowercase(text);
            let low = lowered.as_str();
            if str_eq(low, "control") || str_eq(low, "ctrl") {
                self.mod_control = true;
            } else if str_eq(low, "alt") || str_eq(low, "meta") {
                self.mod1 = true;
            } else if str_eq(low, "super") || str_eq(low, "windows") || str_eq(low, "command") {
                self.mod4 = true;
            } else if str_eq(low, "shift") {
                self.mod_shift = true;
            } else if str_eq(low, "hyper") {
                self.mod4 = true;
            } else {
                let mut msg = "Invalid modifier \"".to_owned();
                msg.append(text);
                msg.append("\"");
                return Err(modifier.to_error(msg));
            }
        }
        Ok(())
    }
}

/// The conversion makes no promise about equal values, which an error with
/// its strings cannot be held to: what `try_from` returns is stated in its
/// own contract, over views.
impl<'a> TryFromSpecImpl<LineText<'a>> for Key {
    open spec fn obeys_try_from_spec() -> bool {
        false
    }

    open spec fn try_from_spec(text: LineText<'a>) -> Result<Self, SyntaxError> {
        arbitrary()
    }
}

impl<'a> TryFrom<LineText<'a>> for Key {
    type Error = SyntaxError;

    /// Parses a word as a key: modifiers, each followed by `-` or `+`,
    /// and then the keysym.
    fn try_from(text: LineText<'a>) -> (r: Result<Self, SyntaxError>)
        ensures
            is_parsed(r, parse_key(text@)),
    {
        let pattern = |c: char| -> (b: bool)
            ensures
                b == (c == '-' || c == '+'),
            { c == '-' || c == '+' };
        let split = text.split(pattern, false);
        proof {
            assert(follows(split.pattern(), dash_or_plus()));
        }
        let subkeys = split.collect();
        let ghost parts = views_of(subkeys@);
        let last = subkeys.len() - 1;
        let mut modifiers = ModField::new();
        let mut i: usize = 0;
        proof {
            assert(parts.drop_last().skip(0) =~= parts.drop_last());
        }
        while i < last
            invariant
                i <= last,
                last == subkeys@.len() - 1,
                parts == views_of(subkeys@),
                parts == sections_of(text@, dash_or_plus(), false),
                parse_modifiers(parts.drop_last(), no_modifiers()) == parse_modifiers(
                    parts.drop_last().skip(i as int),
                    modifiers,
                ),
            decreases last - i,
        {
            proof {
                assert(parts.drop_last().skip(i as int)[0] == subkeys@[i as int]@);
                assert(parts.drop_last().skip(i as int).drop_first() =~= parts.drop_last().skip(
                    i + 1,
                ));
            }
            let ghost before = modifiers;
            let ghost rest = parts.drop_last().skip(i as int);
            match modifiers.add(&subkeys[i]) {
                Ok(()) => {},
                Err(e) => {
                    proof {
                        assert(rest.len() > 0);
                        assert(parse_modifiers(rest, before) == Err::<ModField, SyntaxErrorView>(
                            rest[0].error(invalid_modifier_msg(rest[0].chars())),
                        ));
                    }
                    return Err(e);
                },
            }
            i += 1;
        }
        proof {
            assert(parts.last() == subkeys@[last as int]@);
        }
        match Keysym::try_from(subkeys[last]) {
            Ok(main_key) => Ok(Key { main_key, modifiers }),
            Err(e) => Err(e),
        }
    }
}

/// The conversion makes no promise about equal values, which an error with
/// its strings cannot be held to: what `try_from` returns is stated in its
/// own contract, over views.
impl<'a> TryFromSpecImpl<LineText<'a>> for KeySequence {
    open spec fn obeys_try_from_spec() -> bool {
        false
    }

    open spec fn try_from_spec(text: LineText<'a>) -> Result<Self, SyntaxError> {
        arbitrary()
    }
}

impl<'a> TryFrom<LineText<'a>> for KeySequence {
    type Error = SyntaxError;

    /// Parses a text as a key sequence: keys separated by white space, at
    /// least one.
    fn try_from(value: LineText<'a>) -> (r: Result<Self, SyntaxError>)
        ensures
            match parse_key_sequence(value@) {
                Ok(keys) => r matches Ok(seq) && seq@ == keys && keys.len() >= 1,
                Err(error) => r matches Err(e) && e@ == error,
            },
    {
        let split = value.split(char::is_whitespace, true);
        proof {
            assert(follows(split.pattern(), white_space()));
        }
        let words = split.collect();
        let ghost all = views_of(words@);
        if words.len() == 0 {
            return Err(value.to_error("Expected a key sequence".to_owned()));
        }
        let mut keys: Vec<Key> = Vec::new();
        let mut i: usize = 0;
        proof {
            assert(all.skip(0) =~= all);
            let rest = parse_keys(all);
            if rest is Ok {
                assert(Seq::<Key>::empty() + rest->Ok_0 =~= rest->Ok_0);
            }
        }
        while i < words.len()
            invariant
                i <= words@.len(),
                all == views_of(words@),
                all == sections_of(value@, white_space(), true),
                keys@.len() == i,
                parse_keys(all) == keys_then(keys@, parse_keys(all.skip(i as int))),
            decreases words.len() - i,
        {
            proof {
                assert(all.skip(i as int)[0] == words@[i as int]@);
                assert(all.skip(i as int).drop_first() =~= all.skip(i + 1));
            }
            let ghost rest = all.skip(i as int);
            match Key::try_from(words[i]) {
                Ok(key) => {
                    proof {
                        let rest = parse_keys(all.skip(i + 1));
                        if rest is Ok {
                            assert(keys@ + (Seq::empty().push(key) + rest->Ok_0) =~= keys@.push(
                                key,
                            ) + rest->Ok_0);
                        }
                    }
                    keys.push(key);
                },
                Err(e) => {
                    proof {
                        assert(rest.len() > 0);
                        assert(parse_keys(rest) == Err::<Seq<Key>, SyntaxErrorView>(e@));
                    }
                    return Err(e);
                },
            }
            i += 1;
        }
        proof {
            assert(all.skip(i as int) =~= Seq::<LineTextView>::empty());
            assert(keys@ + Seq::<Key>::empty() =~= keys@);
        }
        Ok(KeySequence { keys })
    }
}

} // verus!
