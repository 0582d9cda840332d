use vstd::prelude::*;

use crate::actions::{action_named, Action};
use crate::error::AppError;
use crate::text::{
    all_ascii, ascii_upper_code, split_char, split_on, str_equal, to_uppercase, trim, trimmed,
    uppercase_of,
};

verus! {

/// Modifier flags of the Win32 hotkey interface.
pub const MOD_ALT: u32 = 1;

pub const MOD_CONTROL: u32 = 2;

pub const MOD_SHIFT: u32 = 4;

pub const MOD_WIN: u32 = 8;

/// Virtual-key codes of the Win32 keyboard interface.
pub const VK_SPACE: u32 = 32;

pub const VK_RETURN: u32 = 13;

pub const VK_ESCAPE: u32 = 27;

pub const VK_TAB: u32 = 9;

pub const VK_BACK: u32 = 8;

pub const VK_DELETE: u32 = 46;

pub const VK_INSERT: u32 = 45;

pub const VK_HOME: u32 = 36;

pub const VK_END: u32 = 35;

pub const VK_PRIOR: u32 = 33;

pub const VK_NEXT: u32 = 34;

pub const VK_UP: u32 = 38;

pub const VK_DOWN: u32 = 40;

pub const VK_LEFT: u32 = 37;

pub const VK_RIGHT: u32 = 39;

pub const VK_F1: u32 = 112;

pub const VK_F2: u32 = 113;

pub const VK_F3: u32 = 114;

pub const VK_F4: u32 = 115;

pub const VK_F5: u32 = 116;

pub const VK_F6: u32 = 117;

pub const VK_F7: u32 = 118;

pub const VK_F8: u32 = 119;

pub const VK_F9: u32 = 120;

pub const VK_F10: u32 = 121;

pub const VK_F11: u32 = 122;

pub const VK_F12: u32 = 123;

/// The modifier flag that an uppercased word names; 0 for no modifier.
pub open spec fn modifier_of(u: Seq<char>) -> u32 {
    if u == "WIN"@ || u == "WINDOWS"@ || u == "SUPER"@ {
        MOD_WIN
    } else if u == "ALT"@ || u == "MENU"@ {
        MOD_ALT
    } else if u == "CTRL"@ || u == "CONTROL"@ {
        MOD_CONTROL
    } else if u == "SHIFT"@ {
        MOD_SHIFT
    } else {
        0
    }
}

/// The virtual-key code of a key that an uppercased word names.
pub open spec fn named_key_code(u: Seq<char>) -> Option<u32> {
    if u == "SPACE"@ || u == " "@ {
        Some(VK_SPACE)
    } else if u == "ENTER"@ || u == "RETURN"@ {
        Some(VK_RETURN)
    } else if u == "ESC"@ || u == "ESCAPE"@ {
        Some(VK_ESCAPE)
    } else if u == "TAB"@ {
        Some(VK_TAB)
    } else if u == "BACK"@ || u == "BACKSPACE"@ {
        Some(VK_BACK)
    } else if u == "DELETE"@ || u == "DEL"@ {
        Some(VK_DELETE)
    } else if u == "INSERT"@ || u == "INS"@ {
        Some(VK_INSERT)
    } else if u == "HOME"@ {
        Some(VK_HOME)
    } else if u == "END"@ {
        Some(VK_END)
    } else if u == "PAGEUP"@ || u == "PGUP"@ {
        Some(VK_PRIOR)
    } else if u == "PAGEDOWN"@ || u == "PGDN"@ {
        Some(VK_NEXT)
    } else if u == "UP"@ {
        Some(VK_UP)
    } else if u == "DOWN"@ {
        Some(VK_DOWN)
    } else if u == "LEFT"@ {
        Some(VK_LEFT)
    } else if u == "RIGHT"@ {
        Some(VK_RIGHT)
    } else if u == "F1"@ {
        Some(VK_F1)
    } else if u == "F2"@ {
        Some(VK_F2)
    } else if u == "F3"@ {
        Some(VK_F3)
    } else if u == "F4"@ {
        Some(VK_F4)
    } else if u == "F5"@ {
        Some(VK_F5)
    } else if u == "F6"@ {
        Some(VK_F6)
    } else if u == "F7"@ {
        Some(VK_F7)
    } else if u == "F8"@ {
        Some(VK_F8)
    } else if u == "F9"@ {
        Some(VK_F9)
    } else if u == "F10"@ {
        Some(VK_F10)
    } else if u == "F11"@ {
        Some(VK_F11)
    } else if u == "F12"@ {
        Some(VK_F12)
    } else {
        None
    }
}

/// Whether a character code is an ASCII letter or digit.
pub open spec fn is_ascii_alnum(u: u32) -> bool {
    (48 <= u <= 57) || (65 <= u <= 90) || (97 <= u <= 122)
}

/// The message of an error about `subject`.
pub open spec fn quoted(prefix: Seq<char>, subject: Seq<char>) -> Seq<char> {
    prefix + subject + "'"@
}

/// The virtual-key code of `key`, or the message of the error: a named key,
/// else a single ASCII letter or digit, taken in upper case; the names and the
/// single character are read from `key` in upper case.
pub open spec fn virtual_key_of(key: Seq<char>) -> Result<u32, Seq<char>> {
    match upper_key_code(uppercase_of(key)) {
        Some(c) => Ok(c),
        None => Err(quoted("unsupported key: '"@, key)),
    }
}

/// The virtual-key code of a key name already in upper case: a named key,
/// else a single ASCII letter or digit.
pub open spec fn upper_key_code(u: Seq<char>) -> Option<u32> {
    match named_key_code(u) {
        Some(c) => Some(c),
        None => if u.len() == 1 && (u[0] as u32) < 128 && is_ascii_alnum(u[0] as u32) {
            Some(ascii_upper_code(u[0] as u32))
        } else {
            None
        },
    }
}

/// The pieces of a hotkey string between `+`, each trimmed.
pub open spec fn hotkey_parts(t: Seq<char>) -> Seq<Seq<char>> {
    split_on(t, '+').map_values(|p: Seq<char>| trimmed(p))
}

/// Reading the first `n` parts: the modifier flags so far, the key so far,
/// and whether a second key was met (reading stops there).
pub open spec fn scan_parts(parts: Seq<Seq<char>>, n: int) -> (u32, Seq<char>, bool)
    decreases n,
{
    if n <= 0 {
        (0, Seq::empty(), false)
    } else {
        let (m, key, multiple) = scan_parts(parts, n - 1);
        if multiple {
            (m, key, multiple)
        } else {
            let p = parts[n - 1];
            let bit = modifier_of(uppercase_of(p));
            if bit != 0 {
                (m | bit, key, false)
            } else if key.len() > 0 {
                (m, key, true)
            } else {
                (m, p, false)
            }
        }
    }
}

/// The modifier flags and virtual-key code that a hotkey string such as
/// `WIN+ALT+H` names, or the message of the error.
pub open spec fn hotkey_of(raw: Seq<char>) -> Result<(u32, u32), Seq<char>> {
    let t = trimmed(raw);
    let parts = hotkey_parts(t);
    let (m, key, multiple) = scan_parts(parts, parts.len() as int);
    if t.len() == 0 {
        Err("empty hotkey string"@)
    } else if multiple {
        Err(quoted("multiple non-modifier keys in hotkey: '"@, t))
    } else if key.len() == 0 {
        Err(quoted("no key specified in hotkey: '"@, t))
    } else if m == 0 {
        Err(quoted("at least one modifier required for hotkey: '"@, t))
    } else {
        match virtual_key_of(key) {
            Ok(vk) => Ok((m, vk)),
            Err(msg) => Err(msg),
        }
    }
}

/// `r` is the outcome `spec`, a failure being a hotkey error with its message.
pub open spec fn hotkey_outcome<T>(r: Result<T, AppError>, spec: Result<T, Seq<char>>) -> bool {
    match (r, spec) {
        (Ok(a), Ok(b)) => a == b,
        (Err(AppError::Hotkey(m)), Err(msg)) => m@ == msg,
        _ => false,
    }
}

/// A hotkey error with message `prefix`, `subject` and a closing quote.
fn hotkey_error(prefix: &str, subject: &str) -> (e: AppError)
    ensures
        e matches AppError::Hotkey(m) && m@ == quoted(prefix@, subject@),
{
    let mut m = String::from_str(prefix);
    m.append(subject);
    m.append("'");
    AppError::Hotkey(m)
}

/// The modifier flag that the uppercased word `u` names; 0 for none.
pub fn modifier_bit(u: &str) -> (r: u32)
    ensures
        r == modifier_of(u@),
{
    if str_equal(u, "WIN") || str_equal(u, "WINDOWS") || str_equal(u, "SUPER") {
        MOD_WIN
    } else if str_equal(u, "ALT") || str_equal(u, "MENU") {
        MOD_ALT
    } else if str_equal(u, "CTRL") || str_equal(u, "CONTROL") {
        MOD_CONTROL
    } else if str_equal(u, "SHIFT") {
        MOD_SHIFT
    } else {
        0
    }
}

/// The code of the key that the uppercased word `u` names.
pub fn named_key(u: &str) -> (r: Option<u32>)
    ensures
        r == named_key_code(u@),
{
    if str_equal(u, "SPACE") || str_equal(u, " ") {
        return Some(VK_SPACE);
    }
    if str_equal(u, "ENTER") || str_equal(u, "RETURN") {
        return Some(VK_RETURN);
    }
    if str_equal(u, "ESC") || str_equal(u, "ESCAPE") {
        return Some(VK_ESCAPE);
    }
    if str_equal(u, "TAB") {
        return Some(VK_TAB);
    }
    if str_equal(u, "BACK") || str_equal(u, "BACKSPACE") {
        return Some(VK_BACK);
    }
    if str_equal(u, "DELETE") || str_equal(u, "DEL") {
        return Some(VK_DELETE);
    }
    if str_equal(u, "INSERT") || str_equal(u, "INS") {
        return Some(VK_INSERT);
    }
    if str_equal(u, "HOME") {
        return Some(VK_HOME);
    }
    if str_equal(u, "END") {
        return Some(VK_END);
    }
    if str_equal(u, "PAGEUP") || str_equal(u, "PGUP") {
        return Some(VK_PRIOR);
    }
    if str_equal(u, "PAGEDOWN") || str_equal(u, "PGDN") {
        return Some(VK_NEXT);
    }
    if str_equal(u, "UP") {
        return Some(VK_UP);
    }
    if str_equal(u, "DOWN") {
        return Some(VK_DOWN);
    }
    if str_equal(u, "LEFT") {
        return Some(VK_LEFT);
    }
    if str_equal(u, "RIGHT") {
        return Some(VK_RIGHT);
    }
    if str_equal(u, "F1") {
        return Some(VK_F1);
    }
    if str_equal(u, "F2") {
        return Some(VK_F2);
    }
    if str_equal(u, "F3") {
        return Some(VK_F3);
    }
    if str_equal(u, "F4") {
        return Some(VK_F4);
    }
    if str_equal(u, "F5") {
        return Some(VK_F5);
    }
    if str_equal(u, "F6") {
        return Some(VK_F6);
    }
    if str_equal(u, "F7") {
        return Some(VK_F7);
    }
    if str_equal(u, "F8") {
        return Some(VK_F8);
    }
    if str_equal(u, "F9") {
        return Some(VK_F9);
    }
    if str_equal(u, "F10") {
        return Some(VK_F10);
    }
    if str_equal(u, "F11") {
        return Some(VK_F11);
    }
    if str_equal(u, "F12") {
        return Some(VK_F12);
    }
    None
}

/// The virtual-key code of a key name already in upper case, if it names
/// a key.
pub fn key_code(u: &str) -> (r: Option<u32>)
    ensures
        r == upper_key_code(u@),
{
    match named_key(u) {
        Some(c) => {
            return Some(c);
        },
        None => {},
    }
    if u.unicode_len() == 1 {
        let ch = u.get_char(0) as u32;
        if ch < 128 {
            if (48 <= ch && ch <= 57) || (65 <= ch && ch <= 90) || (97 <= ch && ch <= 122) {
                let code = if 97 <= ch && ch <= 122 {
                    ch - 32
                } else {
                    ch
                };
                return Some(code);
            }
        }
    }
    None
}

/// The virtual-key code of `key`.
fn str_to_virtual_key(key: &str) -> (r: Result<u32, AppError>)
    ensures
        hotkey_outcome(r, virtual_key_of(key@)),
{
    let upper = to_uppercase(key);
    match key_code(upper.as_str()) {
        Some(c) => Ok(c),
        None => Err(hotkey_error("unsupported key: '", key)),
    }
}

/// The modifier flags and virtual-key code that a hotkey string such as
/// `WIN+ALT+H` names. At least one modifier and exactly one key are needed.
pub fn parse_hotkey_string(raw: &str) -> (r: Result<(u32, u32), AppError>)
    ensures
        hotkey_outcome(r, hotkey_of(raw@)),
{
    let t = trim(raw);
    if t.unicode_len() == 0 {
        return Err(AppError::Hotkey(String::from_str("empty hotkey string")));
    }
    let pieces = split_char(t, '+');
    let ghost parts = hotkey_parts(t@);
    let mut modifiers: u32 = 0;
    let mut key: &str = t.substring_char(0, 0);
    let mut i: usize = 0;
    while i < pieces.len()
        invariant
            i <= pieces@.len(),
            pieces@.len() == split_on(t@, '+').len(),
            forall|k: int| 0 <= k < pieces@.len() ==> (#[trigger] pieces@[k])@ == split_on(t@, '+')[k],
            parts == hotkey_parts(t@),
            parts.len() == pieces@.len(),
            scan_parts(parts, i as int) == (modifiers, key@, false),
            t@ == trimmed(raw@),
            t@.len() > 0,
        decreases pieces@.len() - i,
    {
        let part = trim(pieces[i]);
        assert(part@ == parts[i as int]);
        let upper = to_uppercase(part);
        let bit = modifier_bit(upper.as_str());
        if bit != 0 {
            modifiers = modifiers | bit;
        } else {
            if key.unicode_len() != 0 {
                assert(scan_parts(parts, i + 1).2);
                proof {
                    lemma_scan_stops(parts, i + 1, parts.len() as int);
                }
                return Err(hotkey_error("multiple non-modifier keys in hotkey: '", t));
            }
            key = part;
        }
        i += 1;
    }
    if key.unicode_len() == 0 {
        return Err(hotkey_error("no key specified in hotkey: '", t));
    }
    if modifiers == 0 {
        return Err(hotkey_error("at least one modifier required for hotkey: '", t));
    }
    match str_to_virtual_key(key) {
        Ok(vk) => Ok((modifiers, vk)),
        Err(e) => Err(e),
    }
}

/// A registered hotkey: its id, its action, and the modifier flags and key
/// that trigger it.
#[derive(Debug, Clone)]
pub struct HotkeyEntry {
    pub id: i32,
    pub action: Action,
    pub modifiers: u32,
    pub vk: u32,
    pub description: String,
}

/// What a configuration pair of action name and key combination gives: the
/// action, modifier flags and key, or the message of the error.
pub open spec fn pair_outcome(name: Seq<char>, combo: Seq<char>) -> Result<(Action, u32, u32), Seq<char>> {
    match action_named(name) {
        None => Err(quoted("unknown action name: '"@, name)),
        Some(a) => match hotkey_of(combo) {
            Ok((m, vk)) => Ok((a, m, vk)),
            Err(msg) => Err(msg),
        },
    }
}

/// The outcome for the `k`-th configuration pair.
pub open spec fn pair_outcome_at(pairs: Seq<(String, String)>, k: int) -> Result<(Action, u32, u32), Seq<char>> {
    pair_outcome(pairs[k].0@, pairs[k].1@)
}

/// `e` is the entry registered for the `k`-th configuration pair.
pub open spec fn is_entry_for(e: HotkeyEntry, pairs: Seq<(String, String)>, k: int) -> bool {
    &&& e.id == k + 1
    &&& pair_outcome_at(pairs, k) == Ok::<(Action, u32, u32), Seq<char>>((e.action, e.modifiers, e.vk))
    &&& e.description@ == pairs[k].1@ + " -> "@ + pairs[k].0@
}

/// `entries` are the entries for the first `n` configuration pairs, in order.
pub open spec fn entries_for(entries: Seq<HotkeyEntry>, pairs: Seq<(String, String)>, n: int) -> bool {
    &&& entries.len() == n
    &&& forall|k: int| 0 <= k < n ==> is_entry_for(#[trigger] entries[k], pairs, k)
}

/// Registration stopped at the `n`-th pair with error `e`: the pairs before
/// it gave the entries `added`, and the `n`-th pair gives the error `e`.
pub open spec fn stopped_at(e: AppError, pairs: Seq<(String, String)>, added: Seq<HotkeyEntry>, n: int) -> bool {
    &&& 0 <= n < pairs.len()
    &&& forall|k: int| 0 <= k < n ==> (#[trigger] pair_outcome_at(pairs, k)) is Ok
    &&& hotkey_outcome(Err::<(Action, u32, u32), AppError>(e), pair_outcome_at(pairs, n))
    &&& entries_for(added, pairs, n)
}

/// The hotkeys of the configuration, with the actions they run.
pub struct HotkeyRegistry {
    entries: Vec<HotkeyEntry>,
}

impl View for HotkeyRegistry {
    type V = Seq<HotkeyEntry>;

    closed spec fn view(&self) -> Seq<HotkeyEntry> {
        self.entries@
    }
}

impl Default for HotkeyRegistry {
    fn default() -> (r: Self)
        ensures
            r@ == Seq::<HotkeyEntry>::empty(),
    {
        Self::new()
    }
}

/// The index of the first of the first `n` entries with id `id`.
pub open spec fn entry_with_id_prefix(entries: Seq<HotkeyEntry>, id: i32, n: int) -> Option<int>
    decreases n,
{
    if n <= 0 {
        None
    } else {
        match entry_with_id_prefix(entries, id, n - 1) {
            Some(k) => Some(k),
            None => if entries[n - 1].id == id {
                Some(n - 1)
            } else {
                None
            },
        }
    }
}

impl HotkeyRegistry {
    pub fn new() -> (r: Self)
        ensures
            r@ == Seq::<HotkeyEntry>::empty(),
    {
        HotkeyRegistry { entries: Vec::new() }
    }

    /// Register the configuration pairs of action name and key combination in
    /// order, with ids from 1. The first pair whose action is unknown or whose
    /// combination does not parse ends the registration with its error; the
    /// pairs before it stay registered.
    pub fn register_from_config(&mut self, hotkeys: &Vec<(String, String)>) -> (r: Result<(), AppError>)
        requires
            hotkeys@.len() < i32::MAX,
        ensures
            final(self)@.subrange(0, old(self)@.len() as int) == old(self)@,
            match r {
                Ok(()) => {
                    &&& forall|k: int| 0 <= k < hotkeys@.len() ==> (#[trigger] pair_outcome_at(hotkeys@, k)) is Ok
                    &&& entries_for(final(self)@.subrange(old(self)@.len() as int, final(self)@.len() as int), hotkeys@, hotkeys@.len() as int)
                },
                Err(e) => exists|n: int|
                    #[trigger] stopped_at(e, hotkeys@, final(self)@.subrange(old(self)@.len() as int, final(self)@.len() as int), n),
            },
    {
        let ghost start = self.entries@;
        let ghost pairs = hotkeys@;
        let mut next_id: i32 = 1;
        let mut i: usize = 0;
        while i < hotkeys.len()
            invariant
                pairs == hotkeys@,
                pairs.len() < i32::MAX,
                i <= pairs.len(),
                next_id == i + 1,
                start == old(self)@,
                self.entries@.subrange(0, start.len() as int) == start,
                self.entries@.len() == start.len() + i,
                entries_for(self.entries@.subrange(start.len() as int, self.entries@.len() as int), pairs, i as int),
                forall|k: int| 0 <= k < i ==> (#[trigger] pair_outcome_at(pairs, k)) is Ok,
            decreases pairs.len() - i,
        {
            let action_name = &hotkeys[i].0;
            let key_combo = &hotkeys[i].1;
            let action = match Action::from_str(action_name.as_str()) {
                Some(a) => a,
                None => {
                    let e = hotkey_error("unknown action name: '", action_name.as_str());
                    assert(hotkey_outcome(Err::<(Action, u32, u32), AppError>(e), pair_outcome_at(pairs, i as int)));
                    assert(stopped_at(e, hotkeys@, self@.subrange(old(self)@.len() as int, self@.len() as int), i as int));
                    return Err(e);
                },
            };
            let (modifiers, vk) = match parse_hotkey_string(key_combo.as_str()) {
                Ok(p) => p,
                Err(e) => {
                    assert(hotkey_outcome(Err::<(Action, u32, u32), AppError>(e), pair_outcome_at(pairs, i as int)));
                    assert(stopped_at(e, hotkeys@, self@.subrange(old(self)@.len() as int, self@.len() as int), i as int));
                    return Err(e);
                },
            };
            let mut description = key_combo.clone();
            description.append(" -> ");
            description.append(action_name.as_str());
            let ghost before = self.entries@;
            self.entries.push(HotkeyEntry { id: next_id, action, modifiers, vk, description });
            proof {
                let olds = before.subrange(start.len() as int, before.len() as int);
                let news = self.entries@.subrange(start.len() as int, self.entries@.len() as int);
                assert(news =~= olds.push(self.entries@.last()));
                assert(self.entries@.subrange(0, start.len() as int) =~= before.subrange(0, start.len() as int));
                assert(is_entry_for(news[i as int], pairs, i as int));
            }
            next_id = next_id + 1;
            i += 1;
        }
        Ok(())
    }

    pub fn entries(&self) -> (r: &[HotkeyEntry])
        ensures
            r@ == self@,
    {
        self.entries.as_slice()
    }

    pub fn into_entries(self) -> (r: Vec<HotkeyEntry>)
        ensures
            r@ == self@,
    {
        self.entries
    }

    pub fn add_entry(&mut self, entry: HotkeyEntry)
        ensures
            final(self)@ == old(self)@.push(entry),
    {
        self.entries.push(entry);
    }

    /// The action of the first entry with id `id`.
    pub fn find_by_id(&self, id: i32) -> (r: Option<Action>)
        ensures
            r == match entry_with_id_prefix(self@, id, self@.len() as int) {
                Some(k) => Some(self@[k].action),
                None => None,
            },
    {
        let mut i: usize = 0;
        while i < self.entries.len()
            invariant
                i <= self.entries@.len(),
                entry_with_id_prefix(self.entries@, id, i as int) is None,
            decreases self.entries@.len() - i,
        {
            if self.entries[i].id == id {
                assert(entry_with_id_prefix(self.entries@, id, i + 1) == Some(i as int));
                proof {
                    lemma_entry_with_id_stable(self.entries@, id, i + 1, self.entries@.len() as int);
                }
                return Some(self.entries[i].action);
            }
            i += 1;
        }
        None
    }
}

/// Once an id is found in a prefix, longer prefixes find the same entry.
pub proof fn lemma_entry_with_id_stable(entries: Seq<HotkeyEntry>, id: i32, n: int, m: int)
    requires
        0 <= n <= m,
        entry_with_id_prefix(entries, id, n) is Some,
    ensures
        entry_with_id_prefix(entries, id, m) == entry_with_id_prefix(entries, id, n),
    decreases m - n,
{
    if m > n {
        lemma_entry_with_id_stable(entries, id, n, m - 1);
    }
}

/// Once a second key is met, the reading stays stopped.
pub proof fn lemma_scan_stops(parts: Seq<Seq<char>>, n: int, m: int)
    requires
        0 <= n <= m,
        scan_parts(parts, n).2,
    ensures
        scan_parts(parts, m) == scan_parts(parts, n),
    decreases m - n,
{
    if m > n {
        lemma_scan_stops(parts, n, m - 1);
    }
}

} // verus!
