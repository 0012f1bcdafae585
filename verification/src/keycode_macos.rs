//! The bidirectional table between platform-specific numeric key
//! codes and canonical key names.

use vstd::prelude::*;

use crate::model::{assoc_insert, assoc_lookup, lemma_assoc_insert_at, lemma_assoc_insert_push,
    lemma_assoc_lookup_at, lemma_assoc_lookup_none,
};
use crate::strutil::{char_upper_string, lower_of, str_eq, str_lower, str_upper, upper_char,
    upper_of,
};

verus! {

/// `s` with its first character uppercased.
pub open spec fn capitalize_spec(s: Seq<char>) -> Seq<char> {
    if s.len() == 0 {
        Seq::empty()
    } else {
        upper_char(s[0]) + s.skip(1)
    }
}

/// Capitalizes the first letter of a string.
pub fn capitalize(s: String) -> (r: String)
    ensures
        r@ == capitalize_spec(s@),
{
    let n = s.as_str().unicode_len();
    if n == 0 {
        let r = String::new();
        proof {
            assert(r@ =~= capitalize_spec(s@));
        }
        r
    } else {
        let mut r = char_upper_string(s.as_str().get_char(0));
        r.append(s.as_str().substring_char(1, n));
        proof {
            assert(s@.subrange(1, n as int) =~= s@.skip(1));
        }
        r
    }
}

/// The mathematical value of the key-code table: each direction as an
/// association list looked up by first match.
pub ghost struct KeycodesModel {
    pub codes: Seq<(i64, Seq<char>)>,
    pub names: Seq<(Seq<char>, i64)>,
}

/// The bidirectional mapping between numeric key codes and canonical
/// key names.
pub struct KeyCodeLookup {
    pub keycode_to_name: Vec<(i64, String)>,
    pub name_to_keycode: Vec<(String, i64)>,
}

/// What registering one pair does to the table model: a new code is
/// stored under the lowercased name; a new name is stored in four
/// spellings (as given, lowercase, capitalized and uppercase); a code
/// or name already present keeps its prior entries.
pub open spec fn add_pair_model(m: KeycodesModel, keycode: i64, name: Seq<char>) -> KeycodesModel {
    let codes = if assoc_lookup(m.codes, keycode) is Some {
        m.codes
    } else {
        assoc_insert(assoc_insert(m.codes, keycode, name), keycode, lower_of(name))
    };
    let names = if assoc_lookup(m.names, name) is Some {
        m.names
    } else {
        assoc_insert(
            assoc_insert(
                assoc_insert(assoc_insert(m.names, name, keycode), lower_of(name), keycode),
                capitalize_spec(lower_of(name)),
                keycode,
            ),
            upper_of(name),
            keycode,
        )
    };
    KeycodesModel { codes, names }
}

impl KeyCodeLookup {
    /// The mathematical value of this table.
    pub open spec fn model(self) -> KeycodesModel {
        KeycodesModel {
            codes: self.keycode_to_name@.map_values(|p: (i64, String)| (p.0, p.1@)),
            names: self.name_to_keycode@.map_values(|p: (String, i64)| (p.0@, p.1)),
        }
    }

    /// True when the table knows the exact name.
    pub fn contains_name(&self, name: &str) -> (r: bool)
        ensures
            r == (assoc_lookup(self.model().names, name@) is Some),
    {
        let ghost m = self.model().names;
        let mut i: usize = 0;
        while i < self.name_to_keycode.len()
            invariant
                m == self.model().names,
                m.len() == self.name_to_keycode@.len(),
                0 <= i <= self.name_to_keycode.len(),
                forall|j: int| 0 <= j < i ==> #[trigger] m[j].0 != name@,
            decreases self.name_to_keycode.len() - i,
        {
            if str_eq(self.name_to_keycode[i].0.as_str(), name) {
                proof {
                    assert(m[i as int].0 == name@);
                    lemma_assoc_lookup_at(m, name@, i as int);
                }
                return true;
            }
            proof {
                assert(m[i as int].0 == self.name_to_keycode@[i as int].0@);
            }
            i += 1;
        }
        proof {
            lemma_assoc_lookup_none(m, name@);
        }
        false
    }

    /// Finds the canonical name registered for a code.
    pub fn name_for_code(&self, keycode: i64) -> (r: Option<&String>)
        ensures
            match r {
                Some(n) => assoc_lookup(self.model().codes, keycode) == Some(n@),
                None => assoc_lookup(self.model().codes, keycode) is None,
            },
    {
        let ghost m = self.model().codes;
        let mut i: usize = 0;
        while i < self.keycode_to_name.len()
            invariant
                m == self.model().codes,
                m.len() == self.keycode_to_name@.len(),
                0 <= i <= self.keycode_to_name.len(),
                forall|j: int| 0 <= j < i ==> #[trigger] m[j].0 != keycode,
            decreases self.keycode_to_name.len() - i,
        {
            if self.keycode_to_name[i].0 == keycode {
                proof {
                    lemma_assoc_lookup_at(m, keycode, i as int);
                }
                return Some(&self.keycode_to_name[i].1);
            }
            i += 1;
        }
        proof {
            lemma_assoc_lookup_none(m, keycode);
        }
        None
    }

    /// Finds the code registered for a name.
    pub fn code_for_name(&self, name: &str) -> (r: Option<i64>)
        ensures
            match r {
                Some(c) => assoc_lookup(self.model().names, name@) == Some(c),
                None => assoc_lookup(self.model().names, name@) is None,
            },
    {
        let ghost m = self.model().names;
        let mut i: usize = 0;
        while i < self.name_to_keycode.len()
            invariant
                m == self.model().names,
                m.len() == self.name_to_keycode@.len(),
                0 <= i <= self.name_to_keycode.len(),
                forall|j: int| 0 <= j < i ==> #[trigger] m[j].0 != name@,
            decreases self.name_to_keycode.len() - i,
        {
            if str_eq(self.name_to_keycode[i].0.as_str(), name) {
                proof {
                    assert(m[i as int].0 == name@);
                    lemma_assoc_lookup_at(m, name@, i as int);
                }
                return Some(self.name_to_keycode[i].1);
            }
            proof {
                assert(m[i as int].0 == self.name_to_keycode@[i as int].0@);
            }
            i += 1;
        }
        proof {
            lemma_assoc_lookup_none(m, name@);
        }
        None
    }

    /// Registers one code/name pair under the usual name spellings.
    pub fn add_pair(&mut self, keycode: i64, name: &str)
        ensures
            final(self).model() == add_pair_model(old(self).model(), keycode, name@),
    {
        if self.name_for_code_absent(keycode) {
            let lowered = str_lower(name);
            insert_code(&mut self.keycode_to_name, keycode, name.to_owned());
            insert_code(&mut self.keycode_to_name, keycode, lowered);
        }
        if !self.contains_name(name) {
            let lowered = str_lower(name);
            let capped = capitalize(str_lower(name));
            let upped = str_upper(name);
            insert_name(&mut self.name_to_keycode, name.to_owned(), keycode);
            insert_name(&mut self.name_to_keycode, lowered, keycode);
            insert_name(&mut self.name_to_keycode, capped, keycode);
            insert_name(&mut self.name_to_keycode, upped, keycode);
        }
    }

    /// True when no name is registered for the code yet.
    fn name_for_code_absent(&self, keycode: i64) -> (r: bool)
        ensures
            r == (assoc_lookup(self.model().codes, keycode) is None),
    {
        match self.name_for_code(keycode) {
            Some(_) => false,
            None => true,
        }
    }
}

/// Stores a name under a code, replacing the first entry with that
/// code, as a map insertion does.
fn insert_code(entries: &mut Vec<(i64, String)>, keycode: i64, name: String)
    ensures
        final(entries)@.map_values(|p: (i64, String)| (p.0, p.1@)) == assoc_insert(
            old(entries)@.map_values(|p: (i64, String)| (p.0, p.1@)),
            keycode,
            name@,
        ),
{
    let ghost m = entries@.map_values(|p: (i64, String)| (p.0, p.1@));
    let ghost namev = name@;
    let mut i: usize = 0;
    while i < entries.len()
        invariant
            entries@ == old(entries)@,
            m == entries@.map_values(|p: (i64, String)| (p.0, p.1@)),
            m.len() == entries@.len(),
            namev == name@,
            0 <= i <= entries.len(),
            forall|j: int| 0 <= j < i ==> #[trigger] m[j].0 != keycode,
        decreases entries.len() - i,
    {
        if entries[i].0 == keycode {
            proof {
                lemma_assoc_insert_at(m, keycode, namev, i as int);
            }
            entries.remove(i);
            entries.insert(i, (keycode, name));
            proof {
                assert(entries@ =~= old(entries)@.update(i as int, (keycode, name)));
                let newm = entries@.map_values(|p: (i64, String)| (p.0, p.1@));
                assert forall|j: int| 0 <= j < newm.len() implies newm[j] == m.update(
                    i as int,
                    (keycode, namev),
                )[j] by {
                    if j != i {
                        assert(entries@[j] == old(entries)@[j]);
                    }
                }
                assert(newm =~= m.update(i as int, (keycode, namev)));
            }
            return ;
        }
        i += 1;
    }
    proof {
        lemma_assoc_insert_push(m, keycode, namev);
    }
    entries.push((keycode, name));
    proof {
        let newm = entries@.map_values(|p: (i64, String)| (p.0, p.1@));
        assert forall|j: int| 0 <= j < newm.len() implies newm[j] == m.push((keycode, namev))[j] by {
            if j < m.len() {
                assert(entries@[j] == old(entries)@[j]);
            }
        }
        assert(newm =~= m.push((keycode, namev)));
    }
}

/// Stores a code under a name, replacing the first entry with that
/// name, as a map insertion does.
fn insert_name(entries: &mut Vec<(String, i64)>, name: String, keycode: i64)
    ensures
        final(entries)@.map_values(|p: (String, i64)| (p.0@, p.1)) == assoc_insert(
            old(entries)@.map_values(|p: (String, i64)| (p.0@, p.1)),
            name@,
            keycode,
        ),
{
    let ghost m = entries@.map_values(|p: (String, i64)| (p.0@, p.1));
    let ghost namev = name@;
    let mut i: usize = 0;
    while i < entries.len()
        invariant
            entries@ == old(entries)@,
            m == entries@.map_values(|p: (String, i64)| (p.0@, p.1)),
            m.len() == entries@.len(),
            namev == name@,
            0 <= i <= entries.len(),
            forall|j: int| 0 <= j < i ==> #[trigger] m[j].0 != namev,
        decreases entries.len() - i,
    {
        if str_eq(entries[i].0.as_str(), name.as_str()) {
            proof {
                assert(m[i as int].0 == namev);
                lemma_assoc_insert_at(m, namev, keycode, i as int);
            }
            entries.remove(i);
            entries.insert(i, (name, keycode));
            proof {
                assert(entries@ =~= old(entries)@.update(i as int, (name, keycode)));
                let newm = entries@.map_values(|p: (String, i64)| (p.0@, p.1));
                assert forall|j: int| 0 <= j < newm.len() implies newm[j] == m.update(
                    i as int,
                    (namev, keycode),
                )[j] by {
                    if j != i {
                        assert(entries@[j] == old(entries)@[j]);
                    }
                }
                assert(newm =~= m.update(i as int, (namev, keycode)));
            }
            return ;
        }
        proof {
            assert(m[i as int].0 == entries@[i as int].0@);
        }
        i += 1;
    }
    proof {
        lemma_assoc_insert_push(m, namev, keycode);
    }
    entries.push((name, keycode));
    proof {
        let newm = entries@.map_values(|p: (String, i64)| (p.0@, p.1));
        assert forall|j: int| 0 <= j < newm.len() implies newm[j] == m.push((namev, keycode))[j] by {
            if j < m.len() {
                assert(entries@[j] == old(entries)@[j]);
            }
        }
        assert(newm =~= m.push((namev, keycode)));
    }
}

/// Folds pair registrations over a starting table model, first pair
/// first.
pub open spec fn kc_fold(m: KeycodesModel, pairs: Seq<(i64, Seq<char>)>) -> KeycodesModel
    decreases pairs.len(),
{
    if pairs.len() == 0 {
        m
    } else {
        kc_fold(add_pair_model(m, pairs[0].0, pairs[0].1), pairs.skip(1))
    }
}

pub proof fn lemma_kc_fold_push(m: KeycodesModel, pairs: Seq<(i64, Seq<char>)>, x: (i64, Seq<char>))
    ensures
        kc_fold(m, pairs.push(x)) == add_pair_model(kc_fold(m, pairs), x.0, x.1),
    decreases pairs.len(),
{
    if pairs.len() == 0 {
        assert(pairs.push(x)[0] == x);
        assert(pairs.push(x).skip(1) =~= Seq::<(i64, Seq<char>)>::empty());
        assert(kc_fold(add_pair_model(m, x.0, x.1), Seq::<(i64, Seq<char>)>::empty())
            == add_pair_model(m, x.0, x.1));
        assert(kc_fold(m, pairs.push(x)) == kc_fold(
            add_pair_model(m, x.0, x.1),
            pairs.push(x).skip(1),
        ));
    } else {
        assert(pairs.push(x)[0] == pairs[0]);
        assert(pairs.push(x).skip(1) =~= pairs.skip(1).push(x));
        lemma_kc_fold_push(add_pair_model(m, pairs[0].0, pairs[0].1), pairs.skip(1), x);
    }
}

/// Registers a list of pairs in order.
fn add_pairs(lookup: &mut KeyCodeLookup, pairs: &Vec<(i64, &str)>)
    ensures
        final(lookup).model() == kc_fold(
            old(lookup).model(),
            pairs@.map_values(|p: (i64, &str)| (p.0, p.1@)),
        ),
{
    let ghost m0 = lookup.model();
    let ghost gp = pairs@.map_values(|p: (i64, &str)| (p.0, p.1@));
    let mut i: usize = 0;
    while i < pairs.len()
        invariant
            gp == pairs@.map_values(|p: (i64, &str)| (p.0, p.1@)),
            gp.len() == pairs@.len(),
            0 <= i <= pairs.len(),
            lookup.model() == kc_fold(m0, gp.take(i as int)),
        decreases pairs.len() - i,
    {
        lookup.add_pair(pairs[i].0, pairs[i].1);
        proof {
            assert(gp[i as int] == (pairs@[i as int].0, pairs@[i as int].1@));
            assert(gp.take(i + 1) =~= gp.take(i as int).push(gp[i as int]));
            lemma_kc_fold_push(m0, gp.take(i as int), gp[i as int]);
        }
        i += 1;
    }
    proof {
        assert(gp.take(gp.len() as int) =~= gp);
    }
}

/// An empty table model.
pub open spec fn kc_empty() -> KeycodesModel {
    KeycodesModel { codes: Seq::empty(), names: Seq::empty() }
}

/// The code/name pairs the table is built from, in registration
/// order.
pub open spec fn keycode_table_pairs() -> Seq<(i64, Seq<char>)> {
    seq![
        (0x24, "returnKey"@),
        (0x24, "return"@),
        (0x4C, "enter"@),
        (0x30, "tab"@),
        (0x31, "space"@),
        (0x33, "backspace"@),
        (0x35, "escape"@),
        (0x37, "meta"@),
        (0x38, "shift"@),
        (0x39, "capsLock"@),
        (0x3A, "option"@),
        (0x3B, "control"@),
        (0x36, "rightCommand"@),
        (0x3C, "rightShift"@),
        (0x3D, "rightOption"@),
        (0x3E, "rightControl"@),
        (0x3F, "function"@),
        (0x7B, "leftArrow"@),
        (0x7B, "left"@),
        (0x7C, "rightArrow"@),
        (0x7C, "right"@),
        (0x7D, "downArrow"@),
        (0x7D, "down"@),
        (0x7E, "upArrow"@),
        (0x7E, "up"@),
        (0x48, "volumeUp"@),
        (0x49, "volumeDown"@),
        (0x4A, "mute"@),
        (0x72, "help"@),
        (0x73, "home"@),
        (0x74, "pageUp"@),
        (0x75, "forwardDelete"@),
        (0x75, "delete"@),
        (0x77, "end"@),
        (0x79, "pageDown"@),
        (0x7A, "f1"@),
        (0x78, "f2"@),
        (0x63, "f3"@),
        (0x76, "f4"@),
        (0x60, "f5"@),
        (0x61, "f6"@),
        (0x62, "f7"@),
        (0x64, "f8"@),
        (0x65, "f9"@),
        (0x6D, "f10"@),
        (0x67, "f11"@),
        (0x6F, "f12"@),
        (0x69, "f13"@),
        (0x6B, "f14"@),
        (0x71, "f15"@),
        (0x6A, "f16"@),
        (0x40, "f17"@),
        (0x4F, "f18"@),
        (0x50, "f19"@),
        (0x5A, "f20"@),
        (0x00, "a"@),
        (0x0B, "b"@),
        (0x08, "c"@),
        (0x02, "d"@),
        (0x0E, "e"@),
        (0x03, "f"@),
        (0x05, "g"@),
        (0x04, "h"@),
        (0x22, "i"@),
        (0x26, "j"@),
        (0x28, "k"@),
        (0x25, "l"@),
        (0x2E, "m"@),
        (0x2D, "n"@),
        (0x1F, "o"@),
        (0x23, "p"@),
        (0x0C, "q"@),
        (0x0F, "r"@),
        (0x01, "s"@),
        (0x11, "t"@),
        (0x20, "u"@),
        (0x09, "v"@),
        (0x0D, "w"@),
        (0x07, "x"@),
        (0x10, "y"@),
        (0x06, "z"@),
        (0x1D, "zero"@),
        (0x1D, "D0"@),
        (0x12, "one"@),
        (0x12, "D1"@),
        (0x13, "two"@),
        (0x13, "D2"@),
        (0x14, "three"@),
        (0x14, "D3"@),
        (0x15, "four"@),
        (0x15, "D4"@),
        (0x17, "five"@),
        (0x17, "D5"@),
        (0x16, "six"@),
        (0x16, "D6"@),
        (0x1A, "seven"@),
        (0x1A, "D7"@),
        (0x1C, "eight"@),
        (0x1C, "D8"@),
        (0x19, "nine"@),
        (0x19, "D9"@),
        (0x18, "equals"@),
        (0x1B, "minus"@),
        (0x29, "semicolon"@),
        (0x27, "apostrophe"@),
        (0x2B, "comma"@),
        (0x2F, "period"@),
        (0x2C, "forwardSlash"@),
        (0x2A, "backslash"@),
        (0x32, "grave"@),
        (0x21, "leftBracket"@),
        (0x1E, "rightBracket"@),
        (0x41, "keypadDecimal"@),
        (0x43, "keypadMultiply"@),
        (0x45, "keypadPlus"@),
        (0x47, "keypadClear"@),
        (0x4B, "keypadDivide"@),
        (0x4C, "keypadEnter"@),
        (0x4E, "keypadMinus"@),
        (0x51, "keypadEquals"@),
        (0x52, "keypad0"@),
        (0x53, "keypad1"@),
        (0x54, "keypad2"@),
        (0x55, "keypad3"@),
        (0x56, "keypad4"@),
        (0x57, "keypad5"@),
        (0x58, "keypad6"@),
        (0x59, "keypad7"@),
        (0x5B, "keypad8"@),
        (0x5C, "keypad9"@),
    ]
}

/// The full table model: every pair registered in order into an
/// empty table.
pub open spec fn keycode_map_model() -> KeycodesModel {
    kc_fold(kc_empty(), keycode_table_pairs())
}

/// Builds the platform key-code table.
pub fn create_keycode_map() -> (r: KeyCodeLookup)
    ensures
        r.model() == keycode_map_model(),
{
    let mut lookup = KeyCodeLookup { keycode_to_name: Vec::new(), name_to_keycode: Vec::new() };
    proof {
        assert(lookup.model().codes =~= kc_empty().codes);
        assert(lookup.model().names =~= kc_empty().names);
    }
    let pairs: Vec<(i64, &str)> = vec![
        (0x24, "returnKey"),
        (0x24, "return"),
        (0x4C, "enter"),
        (0x30, "tab"),
        (0x31, "space"),
        (0x33, "backspace"),
        (0x35, "escape"),
        (0x37, "meta"),
        (0x38, "shift"),
        (0x39, "capsLock"),
        (0x3A, "option"),
        (0x3B, "control"),
        (0x36, "rightCommand"),
        (0x3C, "rightShift"),
        (0x3D, "rightOption"),
        (0x3E, "rightControl"),
        (0x3F, "function"),
        (0x7B, "leftArrow"),
        (0x7B, "left"),
        (0x7C, "rightArrow"),
        (0x7C, "right"),
        (0x7D, "downArrow"),
        (0x7D, "down"),
        (0x7E, "upArrow"),
        (0x7E, "up"),
        (0x48, "volumeUp"),
        (0x49, "volumeDown"),
        (0x4A, "mute"),
        (0x72, "help"),
        (0x73, "home"),
        (0x74, "pageUp"),
        (0x75, "forwardDelete"),
        (0x75, "delete"),
        (0x77, "end"),
        (0x79, "pageDown"),
        (0x7A, "f1"),
        (0x78, "f2"),
        (0x63, "f3"),
        (0x76, "f4"),
        (0x60, "f5"),
        (0x61, "f6"),
        (0x62, "f7"),
        (0x64, "f8"),
        (0x65, "f9"),
        (0x6D, "f10"),
        (0x67, "f11"),
        (0x6F, "f12"),
        (0x69, "f13"),
        (0x6B, "f14"),
        (0x71, "f15"),
        (0x6A, "f16"),
        (0x40, "f17"),
        (0x4F, "f18"),
        (0x50, "f19"),
        (0x5A, "f20"),
        (0x00, "a"),
        (0x0B, "b"),
        (0x08, "c"),
        (0x02, "d"),
        (0x0E, "e"),
        (0x03, "f"),
        (0x05, "g"),
        (0x04, "h"),
        (0x22, "i"),
        (0x26, "j"),
        (0x28, "k"),
        (0x25, "l"),
        (0x2E, "m"),
        (0x2D, "n"),
        (0x1F, "o"),
        (0x23, "p"),
        (0x0C, "q"),
        (0x0F, "r"),
        (0x01, "s"),
        (0x11, "t"),
        (0x20, "u"),
        (0x09, "v"),
        (0x0D, "w"),
        (0x07, "x"),
        (0x10, "y"),
        (0x06, "z"),
        (0x1D, "zero"),
        (0x1D, "D0"),
        (0x12, "one"),
        (0x12, "D1"),
        (0x13, "two"),
        (0x13, "D2"),
        (0x14, "three"),
        (0x14, "D3"),
        (0x15, "four"),
        (0x15, "D4"),
        (0x17, "five"),
        (0x17, "D5"),
        (0x16, "six"),
        (0x16, "D6"),
        (0x1A, "seven"),
        (0x1A, "D7"),
        (0x1C, "eight"),
        (0x1C, "D8"),
        (0x19, "nine"),
        (0x19, "D9"),
        (0x18, "equals"),
        (0x1B, "minus"),
        (0x29, "semicolon"),
        (0x27, "apostrophe"),
        (0x2B, "comma"),
        (0x2F, "period"),
        (0x2C, "forwardSlash"),
        (0x2A, "backslash"),
        (0x32, "grave"),
        (0x21, "leftBracket"),
        (0x1E, "rightBracket"),
        (0x41, "keypadDecimal"),
        (0x43, "keypadMultiply"),
        (0x45, "keypadPlus"),
        (0x47, "keypadClear"),
        (0x4B, "keypadDivide"),
        (0x4C, "keypadEnter"),
        (0x4E, "keypadMinus"),
        (0x51, "keypadEquals"),
        (0x52, "keypad0"),
        (0x53, "keypad1"),
        (0x54, "keypad2"),
        (0x55, "keypad3"),
        (0x56, "keypad4"),
        (0x57, "keypad5"),
        (0x58, "keypad6"),
        (0x59, "keypad7"),
        (0x5B, "keypad8"),
        (0x5C, "keypad9"),
    ];
    add_pairs(&mut lookup, &pairs);
    proof {
        assert(pairs@.map_values(|p: (i64, &str)| (p.0, p.1@)) =~= keycode_table_pairs());
    }
    lookup
}

} // verus!
