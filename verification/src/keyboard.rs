//! Key state from PS/2 scan code set 1.
use vstd::prelude::*;

verus! {

/// Scan code that announces that the next code is of an extended key.
pub const EXTENDED_PREFIX: u8 = 0xE0;

/// The key that a scan code names: its low seven bits.
pub open spec fn key_of(scancode: u8) -> int {
    scancode as int % 128
}

/// Whether a scan code reports a press (top bit clear) or a release.
pub open spec fn is_press(scancode: u8) -> bool {
    scancode < 128
}

/// The state of the keyboard: which ordinary keys and which extended keys
/// are held down, and whether scan codes go to the extended keys.
pub type KeyState = (Seq<bool>, Seq<bool>, bool);

/// The state after one scan code. The prefix `0xE0` selects the extended
/// keys, for good. Any other code sets its key (its low seven bits) in the
/// selected table to pressed when its top bit is clear and to released
/// when it is set.
pub open spec fn scancode_effect(st: KeyState, code: u8) -> KeyState {
    if code == EXTENDED_PREFIX {
        (st.0, st.1, true)
    } else if st.2 {
        (st.0, st.1.update(key_of(code), is_press(code)), st.2)
    } else {
        (st.0.update(key_of(code), is_press(code)), st.1, st.2)
    }
}

/// Which keys are held down, as reported by the keyboard's scan codes.
pub struct KeyboardManager {
    keydown: [bool; 128],
    extended_keydown: [bool; 128],
    extend_next: bool,
}

impl KeyboardManager {
    /// State of the 128 ordinary keys.
    pub closed spec fn keys(&self) -> Seq<bool> {
        self.keydown@
    }

    /// State of the 128 extended keys.
    pub closed spec fn extended_keys(&self) -> Seq<bool> {
        self.extended_keydown@
    }

    /// Whether scan codes now go to the extended keys.
    pub closed spec fn extending(&self) -> bool {
        self.extend_next
    }

    /// The whole state.
    pub open spec fn state(&self) -> KeyState {
        (self.keys(), self.extended_keys(), self.extending())
    }

    /// No key held, ordinary keys selected.
    pub fn new() -> (km: Self)
        ensures
            km.keys() == Seq::new(128, |i: int| false),
            km.extended_keys() == Seq::new(128, |i: int| false),
            !km.extending(),
    {
        let km = Self { keydown: [false; 128], extended_keydown: [false; 128], extend_next: false };
        assert(km.keys() =~= Seq::new(128, |i: int| false));
        assert(km.extended_keys() =~= Seq::new(128, |i: int| false));
        km
    }

    /// Records one scan code; see `scancode_effect`.
    pub fn register_scancode(&mut self, scancode: u8)
        ensures
            final(self).state() == scancode_effect(old(self).state(), scancode),
            final(self).keys().len() == 128,
            final(self).extended_keys().len() == 128,
    {
        if scancode == EXTENDED_PREFIX {
            self.extend_next = true;
            return;
        }
        let is_down = (scancode & 0b10000000u8) == 0;
        let base = scancode & !0b10000000u8;
        assert(is_down == (scancode < 128) && base == scancode % 128) by (bit_vector)
            requires
                is_down == ((scancode & 0b10000000u8) == 0),
                base == scancode & !0b10000000u8,
        ;
        if self.extend_next {
            self.extended_keydown[base as usize] = is_down;
        } else {
            self.keydown[base as usize] = is_down;
        }
    }

    /// Whether `key` is held down, among the extended keys if `extended`.
    pub fn is_key_down(&self, key: u8, extended: bool) -> (down: bool)
        requires
            key < 128,
        ensures
            down == if extended { self.extended_keys()[key as int] } else { self.keys()[key as int] },
    {
        if extended {
            self.extended_keydown[key as usize]
        } else {
            self.keydown[key as usize]
        }
    }

    /// Whether the next scan codes go to the extended keys.
    pub fn is_extending(&self) -> (e: bool)
        ensures
            e == self.extending(),
    {
        self.extend_next
    }
}

/// The prefix `0xE0` changes no key and always leaves the extended keys
/// selected, whatever was selected before.
pub proof fn lemma_prefix_selects_extended(st: KeyState)
    ensures
        scancode_effect(st, 0xE0) == (st.0, st.1, true),
{
}

/// Once the extended keys are selected they stay selected, and codes no
/// longer touch the ordinary keys.
pub proof fn lemma_extended_stays_selected(st: KeyState, code: u8)
    requires
        st.2,
    ensures
        scancode_effect(st, code).2,
        scancode_effect(st, code).0 == st.0,
{
}

/// An ordinary code on the ordinary keys sets exactly its key: pressed
/// (top bit clear) or released (top bit set); the extended keys and the
/// selection stay.
pub proof fn lemma_ordinary_code(st: KeyState, code: u8, key: int)
    requires
        !st.2,
        code != 0xE0,
        st.0.len() == 128,
        0 <= key < 128,
    ensures
        scancode_effect(st, code).0[key] == if key == code as int % 128 { code < 128 } else { st.0[key] },
        scancode_effect(st, code).1 == st.1,
        !scancode_effect(st, code).2,
{
}

/// An extended key pressed and released, each code after its prefix
/// (`0xE0, k, 0xE0, k | 0x80`), ends up released, and the ordinary keys
/// are as before. (Key `0x60` is left out: its release code is the prefix.)
pub proof fn lemma_extended_press_release(st: KeyState, key: u8)
    requires
        st.1.len() == 128,
        key < 128,
        key != 0x60,
    ensures
        ({
            let pressed = scancode_effect(scancode_effect(st, 0xE0), key);
            let released = scancode_effect(scancode_effect(pressed, 0xE0), (key + 128) as u8);
            &&& pressed.1[key as int]
            &&& !released.1[key as int]
            &&& released.0 == st.0
            &&& released.2
        }),
{
    assert(((key + 128) as u8) as int % 128 == key as int);
}

/// Both key tables of every keyboard hold 128 keys.
pub proof fn lemma_key_tables(km: &KeyboardManager)
    ensures
        km.keys().len() == 128,
        km.extended_keys().len() == 128,
{
}

/// A release code undoes a press of the same key: after the press and the
/// release, the key is up in the selected table and nothing else changed.
/// (The key whose release code is the prefix `0xE0` is left out.)
pub proof fn lemma_press_then_release(st: KeyState, code: u8)
    requires
        st.0.len() == 128,
        st.1.len() == 128,
        code < 128,
        code != 0x60,
    ensures
        scancode_effect(scancode_effect(st, code), (code + 128) as u8) == if st.2 {
            (st.0, st.1.update(code as int, false), true)
        } else {
            (st.0.update(code as int, false), st.1, false)
        },
{
    let release = (code + 128) as u8;
    assert(key_of(release) == code as int);
    assert(release != EXTENDED_PREFIX);
    assert(st.0.update(code as int, true).update(code as int, false) =~= st.0.update(code as int, false));
    assert(st.1.update(code as int, true).update(code as int, false) =~= st.1.update(code as int, false));
}

} // verus!
