//! The parts of the X11 backend that compute: modifier masks, the keyboard
//! mapping, and what a key press event means.

use crate::cfgfile::{BindingView, Config};
use crate::keyseq::{Key, Keysym, ModField};
use crate::AhkdError;
use std::collections::HashMap;
use vstd::prelude::*;
use vstd::std_specs::convert::FromSpecImpl;

verus! {

/// The bits that the X11 protocol gives to the modifiers.
struct ModBits {
    shift: u16,
    control: u16,
    m1: u16,
    m2: u16,
    m3: u16,
    m4: u16,
    m5: u16,
}

/// The modifier bits as `x11rb::protocol::xproto::ModMask` has them, each
/// turned into a number by `u16::from`. The contract claims the values that
/// the protocol fixes: bit 0 for Shift, bit 2 for Control (bit 1 is Lock) and
/// bits 3 to 7 for Mod1 to Mod5.
#[verifier::external_body]
fn mod_bits() -> (r: ModBits)
    ensures
        r.shift == 0x01,
        r.control == 0x04,
        r.m1 == 0x08,
        r.m2 == 0x10,
        r.m3 == 0x20,
        r.m4 == 0x40,
        r.m5 == 0x80,
{
    ModBits {
        shift: u16::from(x11rb::protocol::xproto::ModMask::SHIFT),
        control: u16::from(x11rb::protocol::xproto::ModMask::CONTROL),
        m1: u16::from(x11rb::protocol::xproto::ModMask::M1),
        m2: u16::from(x11rb::protocol::xproto::ModMask::M2),
        m3: u16::from(x11rb::protocol::xproto::ModMask::M3),
        m4: u16::from(x11rb::protocol::xproto::ModMask::M4),
        m5: u16::from(x11rb::protocol::xproto::ModMask::M5),
    }
}

/// `bit` if `flag` is set, else nothing.
pub open spec fn bit_if(flag: bool, bit: u16) -> u16 {
    if flag {
        bit
    } else {
        0
    }
}

/// The modifier mask of the protocol that stands for a set of modifiers:
/// each modifier on its own bit.
pub open spec fn mask_of(mods: ModField) -> u16 {
    bit_if(mods.mod_shift, 0x01) | bit_if(mods.mod_control, 0x04) | bit_if(mods.mod1, 0x08)
        | bit_if(mods.mod2, 0x10) | bit_if(mods.mod3, 0x20) | bit_if(mods.mod4, 0x40) | bit_if(
        mods.mod5,
        0x80,
    )
}

/// The set of modifiers that a modifier mask of the protocol stands for.
/// Bits that belong to no modifier of the set are ignored.
pub open spec fn mods_of(n: u16) -> ModField {
    ModField {
        mod_shift: n & 0x01 != 0,
        mod_control: n & 0x04 != 0,
        mod1: n & 0x08 != 0,
        mod2: n & 0x10 != 0,
        mod3: n & 0x20 != 0,
        mod4: n & 0x40 != 0,
        mod5: n & 0x80 != 0,
    }
}

impl<'a> From<&'a ModField> for u16 {
    fn from(mods: &'a ModField) -> (n: u16) {
        let bits = mod_bits();
        let mut n: u16 = 0;
        if mods.mod_shift {
            n |= bits.shift;
        }
        if mods.mod_control {
            n |= bits.control;
        }
        if mods.mod1 {
            n |= bits.m1;
        }
        if mods.mod2 {
            n |= bits.m2;
        }
        if mods.mod3 {
            n |= bits.m3;
        }
        if mods.mod4 {
            n |= bits.m4;
        }
        if mods.mod5 {
            n |= bits.m5;
        }
        proof {
            lemma_or_nothing();
        }
        n
    }
}

impl<'a> FromSpecImpl<&'a ModField> for u16 {
    open spec fn obeys_from_spec() -> bool {
        true
    }

    open spec fn from_spec(mods: &'a ModField) -> u16 {
        mask_of(*mods)
    }
}

impl From<u16> for ModField {
    fn from(n: u16) -> (mods: ModField) {
        let bits = mod_bits();
        ModField {
            mod_shift: n & bits.shift != 0,
            mod_control: n & bits.control != 0,
            mod1: n & bits.m1 != 0,
            mod2: n & bits.m2 != 0,
            mod3: n & bits.m3 != 0,
            mod4: n & bits.m4 != 0,
            mod5: n & bits.m5 != 0,
        }
    }
}

impl FromSpecImpl<u16> for ModField {
    open spec fn obeys_from_spec() -> bool {
        true
    }

    open spec fn from_spec(n: u16) -> ModField {
        mods_of(n)
    }
}

/// A mask joined with no bit is the mask.
proof fn lemma_or_nothing()
    ensures
        forall|n: u16| #[trigger] (n | 0) == n,
        forall|n: u16| #[trigger] (0 | n) == n,
{
    assert forall|n: u16| #[trigger] (n | 0) == n by {
        assert(n | 0 == n) by (bit_vector);
    }
    assert forall|n: u16| #[trigger] (0 | n) == n by {
        assert(0 | n == n) by (bit_vector);
    }
}

/// A set of modifiers survives the way to the protocol's mask and back.
pub proof fn lemma_mask_round_trip(mods: ModField)
    ensures
        mods_of(mask_of(mods)) == mods,
        mask_of(mods) < 0x100,
{
    let a = bit_if(mods.mod_shift, 0x01);
    let b = bit_if(mods.mod_control, 0x04);
    let c = bit_if(mods.mod1, 0x08);
    let d = bit_if(mods.mod2, 0x10);
    let e = bit_if(mods.mod3, 0x20);
    let f = bit_if(mods.mod4, 0x40);
    let g = bit_if(mods.mod5, 0x80);
    let n = a | b | c | d | e | f | g;
    assert(((n & 0x01 != 0) == (a != 0)) && ((n & 0x04 != 0) == (b != 0)) && ((n & 0x08 != 0) == (c
        != 0)) && ((n & 0x10 != 0) == (d != 0)) && ((n & 0x20 != 0) == (e != 0)) && ((n & 0x40
        != 0) == (f != 0)) && ((n & 0x80 != 0) == (g != 0)) && n < 0x100) by (bit_vector)
        requires
            n == a | b | c | d | e | f | g,
            a == 0 || a == 0x01,
            b == 0 || b == 0x04,
            c == 0 || c == 0x08,
            d == 0 || d == 0x10,
            e == 0 || e == 0x20,
            f == 0 || f == 0x40,
            g == 0 || g == 0x80,
    ;
}

/// The keyboard mapping as the server reports it: for each keycode from the
/// lowest one on, in order, the keysyms that the key can produce.
#[derive(Debug)]
pub struct KeyboardMapping {
    /// How many keysyms the list holds for each keycode.
    pub keysyms_per_keycode: u8,
    /// The keysyms, keycode after keycode.
    pub keysyms: Vec<u32>,
}

/// A keyboard mapping as mathematical data.
pub struct KeyboardMappingView {
    pub per: int,
    pub keysyms: Seq<u32>,
}

impl View for KeyboardMapping {
    type V = KeyboardMappingView;

    open spec fn view(&self) -> KeyboardMappingView {
        KeyboardMappingView { per: self.keysyms_per_keycode as int, keysyms: self.keysyms@ }
    }
}

/// Where the list holds the keysym in column `col` of the keycode that is
/// `row` keycodes above the lowest one.
pub open spec fn cell(per: int, row: int, col: int) -> int {
    row * per + col
}

/// The keycode is one that the mapping describes.
pub open spec fn has_code(min: u8, mapping: KeyboardMappingView, code: int) -> bool {
    min <= code && cell(mapping.per, code - min, 0) < mapping.keysyms.len()
}

/// The first keysym of a keycode: the one that the key produces unmodified.
pub open spec fn primary_keysym(min: u8, mapping: KeyboardMappingView, code: int) -> u32 {
    mapping.keysyms[cell(mapping.per, code - min, 0)]
}

/// The key with this keycode produces the keysym in column `col`.
pub open spec fn yields(
    min: u8,
    mapping: KeyboardMappingView,
    code: int,
    col: int,
    keysym: u32,
) -> bool {
    min <= code && 0 <= col < mapping.per && cell(mapping.per, code - min, col)
        < mapping.keysyms.len() && mapping.keysyms[cell(mapping.per, code - min, col)] == keysym
}

/// The key with this keycode can produce the keysym, in one column or another.
pub open spec fn produces(min: u8, mapping: KeyboardMappingView, code: int, keysym: u32) -> bool {
    exists|col: int| yields(min, mapping, code, col, keysym)
}

/// The mapping is one that a table of keycodes can be built from: it has at
/// least one keysym per keycode, and its keycodes end at 255.
pub open spec fn fits_keycodes(min: u8, mapping: KeyboardMappingView) -> bool {
    mapping.per > 0 && forall|code: int| has_code(min, mapping, code) ==> code <= 255
}

/// The status with which the server grants a grab:
/// `x11rb::protocol::xproto::GrabStatus::SUCCESS`, turned into a number by
/// `u8::from`. The contract claims the value that the protocol fixes, 0.
#[verifier::external_body]
fn grab_success() -> (r: u8)
    ensures
        r == 0,
{
    u8::from(x11rb::protocol::xproto::GrabStatus::SUCCESS)
}

/// What the answer of the server to a grab of the keyboard means: the grab
/// is held where the status is that of success, and else another client
/// holds the keyboard.
pub fn keyboard_grabbed(status: u8) -> (r: Result<(), AhkdError>)
    ensures
        status == 0 ==> r is Ok,
        status != 0 ==> r matches Err(AhkdError::KeyboardGrabError),
{
    if status == grab_success() {
        Ok(())
    } else {
        Err(AhkdError::KeyboardGrabError)
    }
}

/// How many keycodes the keyboard has, given its lowest and its highest
/// keycode as the server reports them: what to ask the keyboard mapping
/// for. Nothing where the highest is below the lowest, or where the number
/// does not fit the request, as with all 256 keycodes.
pub fn keycode_count(min_keycode: u8, max_keycode: u8) -> (r: Option<u8>)
    ensures
        r == if min_keycode <= max_keycode && max_keycode - min_keycode < 255 {
            Some((max_keycode - min_keycode + 1) as u8)
        } else {
            None
        },
{
    if min_keycode <= max_keycode && max_keycode - min_keycode < 255 {
        Some(max_keycode - min_keycode + 1)
    } else {
        None
    }
}

impl KeyboardMapping {
    /// Whether a table of keycodes can be built from the mapping, if its
    /// first keycode is `min_keycode`.
    pub fn fits(&self, min_keycode: u8) -> (r: bool)
        ensures
            r == fits_keycodes(min_keycode, self@),
    {
        let per: usize = self.keysyms_per_keycode as usize;
        let len: usize = self.keysyms.len();
        if per == 0 {
            return false;
        }
        if len == 0 {
            proof {
                assert forall|code: int| has_code(min_keycode, self@, code) implies code
                    <= 255 by {
                    lemma_cell_order(per as int, code - min_keycode, code - min_keycode);
                }
            }
            return true;
        }
        let room: usize = 256 - min_keycode as usize;
        let rows: usize = (len - 1) / per;
        proof {
            let p = per as int;
            let last = min_keycode + rows;
            assert(rows * p <= len - 1 < rows * p + p) by (nonlinear_arith)
                requires
                    rows == (len - 1) / p,
                    p > 0,
                    len >= 1,
            ;
            assert(has_code(min_keycode, self@, last as int));
            if rows < room {
                assert forall|code: int| has_code(min_keycode, self@, code) implies code
                    <= 255 by {
                    if code > last {
                        lemma_cell_order(p, rows as int, code - min_keycode);
                    }
                }
            }
        }
        rows < room
    }
}

/// A converter between keycodes and keysyms.
pub struct KeyMap {
    /// The mapping from keysyms to keycodes.
    ks_to_kc: HashMap<u32, u8>,
    /// The mapping from keycodes to keysyms.
    kc_to_ks: HashMap<u8, u32>,
}

/// A converter between keycodes and keysyms as mathematical data.
pub struct KeyMapView {
    /// The keycode that stands for each keysym.
    pub keycodes: Map<u32, u8>,
    /// The keysym that stands for each keycode.
    pub keysyms: Map<u8, u32>,
}

impl View for KeyMap {
    type V = KeyMapView;

    closed spec fn view(&self) -> KeyMapView {
        KeyMapView { keycodes: self.ks_to_kc@, keysyms: self.kc_to_ks@ }
    }
}

/// The converter is the one that belongs to the mapping: every keycode of
/// the mapping stands for its first keysym, and every keysym that some key
/// can produce stands for the lowest keycode that produces it.
pub open spec fn is_key_map_of(map: KeyMapView, min: u8, mapping: KeyboardMappingView) -> bool {
    &&& forall|code: u8| #[trigger] map.keysyms.contains_key(code) <==> has_code(min, mapping, code as int)
    &&& forall|code: u8| #[trigger]
        map.keysyms.contains_key(code) ==> map.keysyms[code] == primary_keysym(min, mapping, code as int)
    &&& forall|keysym: u32| #[trigger]
        map.keycodes.contains_key(keysym) <==> exists|code: int| produces(min, mapping, code, keysym)
    &&& forall|keysym: u32| #[trigger]
        map.keycodes.contains_key(keysym) ==> produces(min, mapping, map.keycodes[keysym] as int, keysym)
    &&& forall|keysym: u32, code: int| #[trigger]
        produces(min, mapping, code, keysym) ==> map.keycodes.contains_key(keysym) && map.keycodes[keysym] <= code
}

/// The cell of `code` and `col` comes before the cell of `code_limit` and `col_limit`.
spec fn comes_before(code_limit: int, col_limit: int, code: int, col: int) -> bool {
    code < code_limit || (code == code_limit && col < col_limit)
}

/// What is known of the keysym table while the cells before that of
/// `code_limit` and `col_limit` have been entered.
spec fn keycodes_so_far(
    keycodes: Map<u32, u8>,
    min: u8,
    mapping: KeyboardMappingView,
    code_limit: int,
    col_limit: int,
) -> bool {
    &&& forall|keysym: u32| #[trigger]
        keycodes.contains_key(keysym) ==> exists|col: int|
            yields(min, mapping, keycodes[keysym] as int, col, keysym) && comes_before(
                code_limit,
                col_limit,
                keycodes[keysym] as int,
                col,
            )
    &&& forall|keysym: u32, code: int, col: int| #[trigger]
        yields(min, mapping, code, col, keysym) && comes_before(code_limit, col_limit, code, col)
            ==> keycodes.contains_key(keysym) && keycodes[keysym] <= code
}

/// The cells of a keycode lie before those of every higher keycode.
proof fn lemma_cell_order(per: int, row1: int, row2: int)
    requires
        per > 0,
    ensures
        cell(per, row1 + 1, 0) == cell(per, row1, 0) + per,
        row1 < row2 ==> cell(per, row1, 0) + per <= cell(per, row2, 0),
        row1 >= 0 ==> cell(per, row1, 0) >= 0,
{
    assert((row1 + 1) * per == row1 * per + per) by (nonlinear_arith);
    assert(row1 < row2 ==> row1 * per + per <= row2 * per) by (nonlinear_arith)
        requires
            per > 0,
    ;
    assert(row1 >= 0 ==> row1 * per >= 0) by (nonlinear_arith)
        requires
            per > 0,
    ;
}

impl KeyMap {
    /// Sets up the mappings between keysyms and keycodes, from the lowest
    /// keycode of the keyboard and the keyboard mapping that the server
    /// reported from that keycode on.
    pub fn new(min_keycode: u8, packet: KeyboardMapping) -> (r: KeyMap)
        requires
            fits_keycodes(min_keycode, packet@),
        ensures
            is_key_map_of(r@, min_keycode, packet@),
    {
        let ghost mapping = packet@;
        let per: usize = packet.keysyms_per_keycode as usize;
        let len: usize = packet.keysyms.len();
        let mut ks_to_kc: HashMap<u32, u8> = HashMap::new();
        let mut kc_to_ks: HashMap<u8, u32> = HashMap::new();
        let mut code: usize = min_keycode as usize;
        let mut base: usize = 0;
        let mut done: bool = len == 0;
        proof {
            assert forall|c: int| has_code(min_keycode, mapping, c) implies len > 0 by {
                lemma_cell_order(mapping.per, c - min_keycode, c - min_keycode);
            }
        }
        while !done
            invariant
                mapping == packet@,
                per == mapping.per,
                len == mapping.keysyms.len(),
                fits_keycodes(min_keycode, mapping),
                min_keycode <= code <= 256,
                !done ==> base < len && base == cell(mapping.per, code - min_keycode, 0),
                done ==> forall|c: int| has_code(min_keycode, mapping, c) ==> c < code,
                forall|c: u8| #[trigger]
                    kc_to_ks@.contains_key(c) <==> has_code(min_keycode, mapping, c as int) && c
                        < code,
                forall|c: u8| #[trigger]
                    kc_to_ks@.contains_key(c) ==> kc_to_ks@[c] == primary_keysym(
                        min_keycode,
                        mapping,
                        c as int,
                    ),
                keycodes_so_far(ks_to_kc@, min_keycode, mapping, code as int, 0),
            decreases len - base + (if done { 0int } else { 1int }),
        {
            assert(has_code(min_keycode, mapping, code as int));
            let c8: u8 = code as u8;
            kc_to_ks.insert(c8, packet.keysyms[base]);
            let mut col: usize = 0;
            while col < per && col < len - base
                invariant
                    mapping == packet@,
                    per == mapping.per,
                    len == mapping.keysyms.len(),
                    min_keycode <= code <= 255,
                    c8 == code,
                    base < len,
                    base == cell(mapping.per, code - min_keycode, 0),
                    col <= per,
                    col <= len - base,
                    keycodes_so_far(ks_to_kc@, min_keycode, mapping, code as int, col as int),
                decreases per - col,
            {
                let keysym = packet.keysyms[base + col];
                let ghost before = ks_to_kc@;
                assert(yields(min_keycode, mapping, code as int, col as int, keysym));
                if !ks_to_kc.contains_key(&keysym) {
                    ks_to_kc.insert(keysym, c8);
                }
                proof {
                    let after = ks_to_kc@;
                    assert forall|s: u32| #[trigger] after.contains_key(s) implies exists|cl: int|
                        yields(min_keycode, mapping, after[s] as int, cl, s) && comes_before(
                            code as int,
                            col + 1,
                            after[s] as int,
                            cl,
                        ) by {
                        if before.contains_key(s) {
                            let cl = choose|cl: int|
                                yields(min_keycode, mapping, before[s] as int, cl, s)
                                    && comes_before(code as int, col as int, before[s] as int, cl);
                            assert(comes_before(code as int, col + 1, after[s] as int, cl));
                        } else {
                            assert(comes_before(code as int, col + 1, after[s] as int, col as int));
                        }
                    }
                    assert forall|s: u32, c: int, cl: int| #[trigger]
                        yields(min_keycode, mapping, c, cl, s) && comes_before(
                            code as int,
                            col + 1,
                            c,
                            cl,
                        ) implies after.contains_key(s) && after[s] <= c by {
                        if comes_before(code as int, col as int, c, cl) {
                            assert(before.contains_key(s) && before[s] <= c);
                        } else {
                            assert(c == code && cl == col);
                            if before.contains_key(s) {
                                let w = choose|w: int|
                                    yields(min_keycode, mapping, before[s] as int, w, s)
                                        && comes_before(
                                        code as int,
                                        col as int,
                                        before[s] as int,
                                        w,
                                    );
                            }
                        }
                    }
                }
                col += 1;
            }
            proof {
                let after = ks_to_kc@;
                lemma_cell_order(mapping.per, code - min_keycode, code - min_keycode);
                assert forall|s: u32| #[trigger] after.contains_key(s) implies exists|cl: int|
                    yields(min_keycode, mapping, after[s] as int, cl, s) && comes_before(
                        code + 1,
                        0,
                        after[s] as int,
                        cl,
                    ) by {
                    let cl = choose|cl: int|
                        yields(min_keycode, mapping, after[s] as int, cl, s) && comes_before(
                            code as int,
                            col as int,
                            after[s] as int,
                            cl,
                        );
                    assert(comes_before(code + 1, 0, after[s] as int, cl));
                }
                assert forall|s: u32, c: int, cl: int| #[trigger]
                    yields(min_keycode, mapping, c, cl, s) && comes_before(
                        code + 1,
                        0,
                        c,
                        cl,
                    ) implies after.contains_key(s) && after[s] <= c by {
                    assert(comes_before(code as int, col as int, c, cl));
                }
                assert forall|c: u8| #[trigger]
                    kc_to_ks@.contains_key(c) <==> has_code(min_keycode, mapping, c as int) && c
                        < code + 1 by {}
            }
            if len - base <= per {
                proof {
                    assert forall|c: int| has_code(min_keycode, mapping, c) implies c < code
                        + 1 by {
                        if c > code {
                            lemma_cell_order(mapping.per, code - min_keycode, c - min_keycode);
                        }
                    }
                }
                done = true;
            } else {
                proof {
                    lemma_cell_order(mapping.per, code - min_keycode, code - min_keycode);
                    assert(has_code(min_keycode, mapping, code + 1));
                }
                base += per;
            }
            code += 1;
        }
        let r = KeyMap { ks_to_kc, kc_to_ks };
        proof {
            let map = r@;
            assert forall|c: int, cl: int, s: u32| #[trigger]
                yields(min_keycode, mapping, c, cl, s) implies comes_before(code as int, 0, c, cl) by {
                lemma_cell_order(mapping.per, c - min_keycode, c - min_keycode);
                assert(has_code(min_keycode, mapping, c));
            }
            assert forall|keysym: u32| #[trigger]
                map.keycodes.contains_key(keysym) <==> exists|c: int|
                    produces(min_keycode, mapping, c, keysym) by {
                if map.keycodes.contains_key(keysym) {
                    assert(produces(min_keycode, mapping, map.keycodes[keysym] as int, keysym));
                }
                if exists|c: int| produces(min_keycode, mapping, c, keysym) {
                    let c = choose|c: int| produces(min_keycode, mapping, c, keysym);
                    let cl = choose|cl: int| yields(min_keycode, mapping, c, cl, keysym);
                    assert(comes_before(code as int, 0, c, cl));
                }
            }
            assert forall|keysym: u32, c: int| #[trigger]
                produces(min_keycode, mapping, c, keysym) implies map.keycodes.contains_key(keysym)
                && map.keycodes[keysym] <= c by {
                let cl = choose|cl: int| yields(min_keycode, mapping, c, cl, keysym);
                assert(comes_before(code as int, 0, c, cl));
            }
        }
        r
    }
}

/// The character that the keysym table of `x11_keysymdef` records for a
/// keysym, if the table knows the keysym.
pub uninterp spec fn keysym_unicode(keysym: u32) -> Option<char>;

/// Looks a keysym up with `x11_keysymdef::lookup_by_keysym` and hands out the
/// character of the record found. The lookup reads a fixed table, so the
/// contract gives its answer a name.
#[verifier::external_body]
fn lookup_unicode(keysym: u32) -> (r: Option<char>)
    ensures
        r == keysym_unicode(keysym),
{
    x11_keysymdef::lookup_by_keysym(keysym).map(|record| record.unicode)
}

/// What a key press means, given the keysym of the key pressed, the
/// character recorded for that keysym and the modifier mask of the event: a
/// key, unless the keysym carries no character, as a bare modifier does.
pub open spec fn key_press(keysym: Keysym, unicode: Option<char>, state: u16) -> Option<Key> {
    match unicode {
        Some(c) if c != '\0' => Some(Key { modifiers: mods_of(state), main_key: keysym }),
        _ => None,
    }
}

/// Determines what key a key press stands for, if any, from the keysym of
/// the key pressed, the character recorded for that keysym and the modifier
/// mask of the event.
pub fn key_of_press(keysym: Keysym, unicode: Option<char>, state: u16) -> (r: Option<Key>)
    ensures
        r == key_press(keysym, unicode, state),
{
    match unicode {
        Some(c) => {
            if c != '\0' {
                Some(Key { modifiers: ModField::from(state), main_key: keysym })
            } else {
                None
            }
        },
        None => None,
    }
}

/// A grab of one key as the protocol asks for it.
#[derive(PartialEq, Eq, Structural, Debug, Clone, Copy)]
pub struct KeyGrab {
    /// The keycode of the key.
    pub key: u8,
    /// The modifier mask that goes with it.
    pub modifiers: u16,
}

/// The first of `keys` whose keysym has no keycode, if there is one.
pub open spec fn first_unknown(keycodes: Map<u32, u8>, keys: Seq<Key>) -> Option<int> {
    if exists|i: int| is_first_unknown(keycodes, keys, i) {
        Some(choose|i: int| is_first_unknown(keycodes, keys, i))
    } else {
        None
    }
}

/// The key at `i` is the first of `keys` whose keysym has no keycode.
pub open spec fn is_first_unknown(keycodes: Map<u32, u8>, keys: Seq<Key>, i: int) -> bool {
    &&& 0 <= i < keys.len()
    &&& !keycodes.contains_key(keys[i].main_key.0)
    &&& forall|j: int| 0 <= j < i ==> keycodes.contains_key(#[trigger] keys[j].main_key.0)
}

/// The grab that stands for a key whose keysym has a keycode.
pub open spec fn grab_of(keycodes: Map<u32, u8>, key: Key) -> KeyGrab {
    KeyGrab { key: keycodes[key.main_key.0], modifiers: mask_of(key.modifiers) }
}

impl KeyMap {
    /// Gets the lowest keycode corresponding to a keysym, or fails where no
    /// key of the keyboard produces the keysym.
    pub fn keysym_to_keycode(&self, keysym: Keysym) -> (r: Result<u8, AhkdError>)
        ensures
            match r {
                Ok(code) => self@.keycodes.contains_key(keysym.0) && code
                    == self@.keycodes[keysym.0],
                Err(e) => !self@.keycodes.contains_key(keysym.0) && e == AhkdError::UnknownKeysym(
                    keysym.0,
                ),
            },
    {
        match self.ks_to_kc.get(&keysym.0) {
            Some(code) => Ok(*code),
            None => Err(AhkdError::UnknownKeysym(keysym.0)),
        }
    }

    /// Whether the keycode is one of the keyboard.
    pub fn has_keycode(&self, keycode: u8) -> (r: bool)
        ensures
            r == self@.keysyms.contains_key(keycode),
    {
        self.kc_to_ks.contains_key(&keycode)
    }

    /// Gets the first keysym corresponding to a keycode of the keyboard.
    pub fn keycode_to_keysym(&self, keycode: u8) -> (r: Keysym)
        requires
            self@.keysyms.contains_key(keycode),
        ensures
            r == Keysym(self@.keysyms[keycode]),
    {
        match self.kc_to_ks.get(&keycode) {
            Some(keysym) => Keysym(*keysym),
            None => Keysym(0),
        }
    }

    /// Determines what key a key press event stands for, if any, from the
    /// keycode and the modifier mask of the event. An event whose keycode
    /// is none of the keyboard stands for no key, and so does one whose
    /// keysym carries no character.
    pub fn event_to_key(&self, keycode: u8, state: u16) -> (r: Option<Key>)
        ensures
            r == if self@.keysyms.contains_key(keycode) {
                key_press(
                    Keysym(self@.keysyms[keycode]),
                    keysym_unicode(self@.keysyms[keycode]),
                    state,
                )
            } else {
                None
            },
    {
        if !self.has_keycode(keycode) {
            return None;
        }
        let keysym = self.keycode_to_keysym(keycode);
        key_of_press(keysym, lookup_unicode(keysym.0), state)
    }

    /// The grabs to ask of the server for a list of keys, one for each key
    /// in order, or the first of them whose keysym no key of the keyboard
    /// produces.
    pub fn key_grabs(&self, keys: &[Key]) -> (r: Result<Vec<KeyGrab>, AhkdError>)
        ensures
            match first_unknown(self@.keycodes, keys@) {
                Some(i) => r matches Err(AhkdError::UnknownKeysym(keysym)) && keysym
                    == keys@[i].main_key.0,
                None => r matches Ok(grabs) && grabs@ =~= Seq::new(
                    keys@.len(),
                    |i: int| grab_of(self@.keycodes, keys@[i]),
                ),
            },
    {
        let mut grabs: Vec<KeyGrab> = Vec::new();
        let mut i: usize = 0;
        while i < keys.len()
            invariant
                i <= keys@.len(),
                grabs@.len() == i,
                forall|j: int| 0 <= j < i ==> self@.keycodes.contains_key(#[trigger] keys@[j].main_key.0),
                forall|j: int| 0 <= j < i ==> grabs@[j] == grab_of(self@.keycodes, keys@[j]),
            decreases keys.len() - i,
        {
            let key = keys[i];
            match self.keysym_to_keycode(key.main_key) {
                Ok(code) => {
                    grabs.push(KeyGrab { key: code, modifiers: u16::from(&key.modifiers) });
                },
                Err(e) => {
                    proof {
                        assert(is_first_unknown(self@.keycodes, keys@, i as int));
                        let c = choose|c: int| is_first_unknown(self@.keycodes, keys@, c);
                        assert(c == i);
                    }
                    return Err(e);
                },
            }
            i += 1;
        }
        proof {
            assert forall|c: int| !is_first_unknown(self@.keycodes, keys@, c) by {}
        }
        Ok(grabs)
    }
}

/// The keysym of the first key, among the key sequences of the first `n`
/// bindings taken in order, that no key of the keyboard produces.
pub open spec fn first_unbound(keycodes: Map<u32, u8>, table: Seq<BindingView>, n: int) -> Option<
    u32,
>
    decreases n,
{
    if n <= 0 {
        None
    } else {
        match first_unbound(keycodes, table, n - 1) {
            Some(keysym) => Some(keysym),
            None => match first_unknown(keycodes, table[n - 1].keys) {
                Some(i) => Some(table[n - 1].keys[i].main_key.0),
                None => None,
            },
        }
    }
}

impl KeyMap {
    /// Checks that the keyboard can produce every key of every key
    /// sequence that the configuration listens for, and names the first
    /// keysym that it cannot produce.
    pub fn check_bindings(&self, config: &Config) -> (r: Result<(), AhkdError>)
        ensures
            match first_unbound(self@.keycodes, config@, config@.len() as int) {
                Some(keysym) => r matches Err(AhkdError::UnknownKeysym(k)) && k == keysym,
                None => r is Ok,
            },
    {
        let mut i: usize = 0;
        while i < config.commands.len()
            invariant
                i <= config.commands@.len(),
                first_unbound(self@.keycodes, config@, i as int) is None,
            decreases config.commands.len() - i,
        {
            assert(config@[i as int].keys == config.commands@[i as int].keyseq.keys@);
            match self.key_grabs(config.commands[i].keyseq.keys.as_slice()) {
                Ok(_) => {},
                Err(e) => {
                    proof {
                        lemma_first_unbound_stays(
                            self@.keycodes,
                            config@,
                            i + 1,
                            config@.len() as int,
                        );
                    }
                    return Err(e);
                },
            }
            i += 1;
        }
        Ok(())
    }
}

/// Once a key is found that the keyboard cannot produce, later bindings do
/// not change which one is named.
pub proof fn lemma_first_unbound_stays(
    keycodes: Map<u32, u8>,
    table: Seq<BindingView>,
    n: int,
    m: int,
)
    requires
        0 <= n <= m,
        first_unbound(keycodes, table, n) is Some,
    ensures
        first_unbound(keycodes, table, m) == first_unbound(keycodes, table, n),
    decreases m - n,
{
    if n < m {
        lemma_first_unbound_stays(keycodes, table, n, m - 1);
    }
}

/// A keycode of the keyboard, turned into its keysym and back, gives a
/// keycode that is no higher and whose key produces that keysym. The
/// keycode found stands for the same keysym again unless a lower key
/// produces the keysym in a column other than its first: the condition
/// leaves those keyboards out.
pub proof fn lemma_codec_round_trip(
    map: KeyMapView,
    min: u8,
    mapping: KeyboardMappingView,
    code: u8,
)
    requires
        is_key_map_of(map, min, mapping),
        mapping.per > 0,
        has_code(min, mapping, code as int),
    ensures
        map.keysyms.contains_key(code),
        map.keycodes.contains_key(map.keysyms[code]),
        map.keycodes[map.keysyms[code]] <= code,
        produces(min, mapping, map.keycodes[map.keysyms[code]] as int, map.keysyms[code]),
        map.keysyms.contains_key(map.keycodes[map.keysyms[code]]),
        (forall|lower: int|
            produces(min, mapping, lower, map.keysyms[code]) && lower < code ==> primary_keysym(
                min,
                mapping,
                lower,
            ) == map.keysyms[code]) ==> map.keysyms[map.keycodes[map.keysyms[code]]]
            == map.keysyms[code],
{
    let keysym = map.keysyms[code];
    assert(map.keysyms.contains_key(code));
    assert(yields(min, mapping, code as int, 0, keysym));
    assert(produces(min, mapping, code as int, keysym));
    let back = map.keycodes[keysym];
    assert(map.keycodes.contains_key(keysym));
    assert(produces(min, mapping, back as int, keysym));
    let col = choose|col: int| yields(min, mapping, back as int, col, keysym);
    assert(has_code(min, mapping, back as int)) by {
        assert(cell(mapping.per, back - min, 0) <= cell(mapping.per, back - min, col));
    }
    if forall|lower: int|
        produces(min, mapping, lower, keysym) && lower < code ==> primary_keysym(
            min,
            mapping,
            lower,
        ) == keysym {
        assert(map.keysyms.contains_key(back));
        assert(map.keysyms[back] == primary_keysym(min, mapping, back as int));
        if back < code {
            assert(produces(min, mapping, back as int, keysym) && back < code);
            assert(primary_keysym(min, mapping, back as int) == keysym);
        } else {
            assert(back == code);
        }
    }
}

} // verus!
