//! Keyboard shortcuts: recording a hotkey from key presses and modifier changes, and the
//! label a shortcut chip shows for a keystroke.

use vstd::prelude::*;

use crate::dock::item::str_eq;
use crate::text::{push_char, push_str_chars};

verus! {

/// The modifier keys held with a keystroke.
#[derive(Clone, Copy, Debug, PartialEq, Eq, Structural, Hash)]
pub struct Modifiers {
    pub control: bool,
    pub alt: bool,
    pub shift: bool,
    pub platform: bool,
    pub function: bool,
}

/// Whether any modifier is held.
pub open spec fn held_any(m: Modifiers) -> bool {
    m.control || m.alt || m.shift || m.platform || m.function
}

/// No modifier held.
pub open spec fn no_modifiers() -> Modifiers {
    Modifiers { control: false, alt: false, shift: false, platform: false, function: false }
}

impl Modifiers {
    /// No modifier held.
    pub fn none() -> (r: Modifiers)
        ensures
            r == no_modifiers(),
    {
        Modifiers { control: false, alt: false, shift: false, platform: false, function: false }
    }

    /// Whether any modifier is held.
    pub fn modified(&self) -> (r: bool)
        ensures
            r == held_any(*self),
    {
        self.control || self.alt || self.shift || self.platform || self.function
    }
}

/// A key press with the modifiers held during it; `key` names the key as shortcuts spell
/// it and `key_char` is the text it would type, if any.
#[derive(Debug, PartialEq, Eq)]
pub struct Keystroke {
    pub modifiers: Modifiers,
    pub key: String,
    pub key_char: Option<String>,
}

/// The plain value of a keystroke.
pub open spec fn keystroke_view(k: Keystroke) -> (Modifiers, Seq<char>, Option<Seq<char>>) {
    (k.modifiers, k.key@, match k.key_char { Some(c) => Some(c@), None => None })
}

impl Keystroke {
    /// A copy of this keystroke.
    pub fn copy(&self) -> (r: Keystroke)
        ensures
            keystroke_view(r) == keystroke_view(*self),
    {
        Keystroke {
            modifiers: self.modifiers,
            key: self.key.clone(),
            key_char: match &self.key_char {
                Some(c) => Some(c.clone()),
                None => None,
            },
        }
    }
}

impl Clone for Keystroke {
    fn clone(&self) -> (r: Keystroke)
        ensures
            keystroke_view(r) == keystroke_view(*self),
    {
        self.copy()
    }
}

/// What a hotkey recorder does with an event.
#[derive(Debug, PartialEq, Eq)]
pub enum MoonHotkeyCapture {
    StartRecording,
    WaitForKey,
    Cancel,
    Clear,
    Commit(Keystroke),
    Ignore,
}

/// A capture as plain values.
pub enum CaptureView {
    StartRecording,
    WaitForKey,
    Cancel,
    Clear,
    Commit((Modifiers, Seq<char>, Option<Seq<char>>)),
    Ignore,
}

/// The plain value of a capture.
pub open spec fn capture_view(c: MoonHotkeyCapture) -> CaptureView {
    match c {
        MoonHotkeyCapture::StartRecording => CaptureView::StartRecording,
        MoonHotkeyCapture::WaitForKey => CaptureView::WaitForKey,
        MoonHotkeyCapture::Cancel => CaptureView::Cancel,
        MoonHotkeyCapture::Clear => CaptureView::Clear,
        MoonHotkeyCapture::Commit(k) => CaptureView::Commit(keystroke_view(k)),
        MoonHotkeyCapture::Ignore => CaptureView::Ignore,
    }
}

/// A modifier that can be a binding of its own.
#[derive(Clone, Copy, Debug, PartialEq, Eq, Structural)]
pub enum LoneModifier {
    Control,
    Alt,
    Shift,
    Platform,
    Function,
}

/// The key name a shortcut that is one modifier parses back into.
pub open spec fn lone_name(m: LoneModifier) -> Seq<char> {
    match m {
        LoneModifier::Control => "control"@,
        LoneModifier::Alt => "alt"@,
        LoneModifier::Shift => "shift"@,
        LoneModifier::Platform => "platform"@,
        LoneModifier::Function => "function"@,
    }
}

/// The one modifier held, when exactly one is.
pub open spec fn lone_modifier(m: Modifiers) -> Option<LoneModifier> {
    let count = (if m.control { 1int } else { 0 }) + (if m.alt { 1int } else { 0 }) + (if m.shift { 1int } else { 0 })
        + (if m.platform { 1int } else { 0 }) + (if m.function { 1int } else { 0 });
    if count != 1 {
        None
    } else if m.control {
        Some(LoneModifier::Control)
    } else if m.alt {
        Some(LoneModifier::Alt)
    } else if m.shift {
        Some(LoneModifier::Shift)
    } else if m.platform {
        Some(LoneModifier::Platform)
    } else {
        Some(LoneModifier::Function)
    }
}

/// The key name of the one modifier held, when exactly one is.
pub fn lone_modifier_key(modifiers: Modifiers) -> (r: Option<LoneModifier>)
    ensures
        r == lone_modifier(modifiers),
{
    let mut only: Option<LoneModifier> = None;
    let mut count: u8 = 0;
    if modifiers.control { only = Some(LoneModifier::Control); count = count + 1; }
    if modifiers.alt { if count == 0 { only = Some(LoneModifier::Alt); } count = count + 1; }
    if modifiers.shift { if count == 0 { only = Some(LoneModifier::Shift); } count = count + 1; }
    if modifiers.platform { if count == 0 { only = Some(LoneModifier::Platform); } count = count + 1; }
    if modifiers.function { if count == 0 { only = Some(LoneModifier::Function); } count = count + 1; }
    if count == 1 { only } else { None }
}

/// The name of a lone modifier as a string.
pub fn lone_modifier_name(m: LoneModifier) -> (r: String)
    ensures
        r@ == lone_name(m),
{
    match m {
        LoneModifier::Control => "control".to_owned(),
        LoneModifier::Alt => "alt".to_owned(),
        LoneModifier::Shift => "shift".to_owned(),
        LoneModifier::Platform => "platform".to_owned(),
        LoneModifier::Function => "function".to_owned(),
    }
}

/// Cross-event state for reading Caps Lock and lone-modifier presses, which arrive as
/// modifier changes rather than key presses.
#[derive(Clone, Copy, Debug, PartialEq, Eq, Structural)]
pub struct MoonHotkeyModifierWatch {
    /// Modifier state as of the previous event.
    modifiers: Modifiers,
    /// Caps Lock as last observed, or `None` until an event first names it.
    capslock: Option<bool>,
    /// The lone modifier held now with nothing pressed since.
    tap: Option<LoneModifier>,
}

/// The state of a watch: previous modifiers, Caps Lock as last observed, and the armed tap.
pub type WatchState = (Modifiers, Option<bool>, Option<LoneModifier>);

impl View for MoonHotkeyModifierWatch {
    type V = WatchState;

    closed spec fn view(&self) -> WatchState {
        (self.modifiers, self.capslock, self.tap)
    }
}

/// The state of a watch that knows nothing of the keyboard.
pub open spec fn fresh_watch() -> WatchState {
    (no_modifiers(), None, None)
}

/// One modifiers-changed event folded into a watch: the next state and what the event means.
///
/// An inactive or unprimed watch only learns the state. A flip of Caps Lock is its press. When
/// everything comes back up, a modifier that was held alone the whole time is the binding. A
/// press arms a tap only when it starts from nothing held.
pub open spec fn watch_step(w: WatchState, m: Modifiers, capslock: bool, active: bool) -> (WatchState, CaptureView) {
    let primed = w.1 is Some;
    let capslock_changed = w.1 == Some(!capslock);
    if !active || !primed {
        ((m, Some(capslock), None), CaptureView::Ignore)
    } else if capslock_changed {
        ((m, Some(capslock), None), CaptureView::Commit((m, "capslock"@, None)))
    } else if !held_any(m) {
        ((m, Some(capslock), None), match w.2 {
            Some(l) => CaptureView::Commit((no_modifiers(), lone_name(l), None)),
            None => CaptureView::Ignore,
        })
    } else {
        ((m, Some(capslock), if held_any(w.0) { None } else { lone_modifier(m) }), CaptureView::WaitForKey)
    }
}

impl Default for MoonHotkeyModifierWatch {
    fn default() -> (r: MoonHotkeyModifierWatch)
        ensures
            r@ == fresh_watch(),
    {
        MoonHotkeyModifierWatch { modifiers: Modifiers::none(), capslock: None, tap: None }
    }
}

impl MoonHotkeyModifierWatch {
    /// Adopt the state the window is already in, so the next event is read as a change.
    pub fn prime(&mut self, modifiers: Modifiers, capslock_on: bool)
        ensures
            final(self)@ == (modifiers, Some(capslock_on), None::<LoneModifier>),
    {
        self.modifiers = modifiers;
        self.capslock = Some(capslock_on);
        self.tap = None;
    }

    /// Give up on the lone-modifier candidate because something else happened while it was
    /// held.
    pub fn interrupt(&mut self)
        ensures
            final(self)@ == (old(self)@.0, old(self)@.1, None::<LoneModifier>),
    {
        self.tap = None;
    }

    /// Forget the keyboard state, so the next event is read as a snapshot and not a press.
    pub fn forget(&mut self)
        ensures
            final(self)@ == fresh_watch(),
    {
        self.modifiers = Modifiers::none();
        self.capslock = None;
        self.tap = None;
    }

    /// Fold one modifiers-changed event into the watch and report what it means (see
    /// [`watch_step`]); `active` is whether a recorder is recording, or `true` for a live
    /// binding.
    pub fn modifiers_changed(&mut self, modifiers: Modifiers, capslock_on: bool, active: bool) -> (r: MoonHotkeyCapture)
        ensures
            (final(self)@, capture_view(r)) == watch_step(old(self)@, modifiers, capslock_on, active),
    {
        let primed = self.capslock.is_some();
        let previous = self.modifiers;
        self.modifiers = modifiers;
        let capslock_changed = match self.capslock {
            Some(c) => c != capslock_on,
            None => false,
        };
        self.capslock = Some(capslock_on);
        if !active || !primed {
            self.tap = None;
            return MoonHotkeyCapture::Ignore;
        }
        if capslock_changed {
            self.tap = None;
            return MoonHotkeyCapture::Commit(Keystroke { modifiers, key: "capslock".to_owned(), key_char: None });
        }
        if !modifiers.modified() {
            let tap = self.tap;
            self.tap = None;
            return match tap {
                Some(key) => MoonHotkeyCapture::Commit(Keystroke {
                    modifiers: Modifiers::none(),
                    key: lone_modifier_name(key),
                    key_char: None,
                }),
                None => MoonHotkeyCapture::Ignore,
            };
        }
        self.tap = if previous.modified() { None } else { lone_modifier_key(modifiers) };
        MoonHotkeyCapture::WaitForKey
    }
}

/// Whether a key name is one of the modifier keys.
pub open spec fn modifier_key_name(k: Seq<char>) -> bool {
    k == "ctrl"@ || k == "control"@ || k == "alt"@ || k == "shift"@ || k == "cmd"@ || k == "super"@
        || k == "win"@ || k == "platform"@ || k == "fn"@ || k == "function"@
}

/// Whether a key name is one of the modifier keys.
pub fn is_modifier_key_name(key: &str) -> (r: bool)
    ensures
        r == modifier_key_name(key@),
{
    str_eq(key, "ctrl") || str_eq(key, "control") || str_eq(key, "alt") || str_eq(key, "shift")
        || str_eq(key, "cmd") || str_eq(key, "super") || str_eq(key, "win") || str_eq(key, "platform")
        || str_eq(key, "fn") || str_eq(key, "function")
}

/// What a hotkey field does with a key press.
///
/// While idle, a plain Enter or Space starts recording and a plain Backspace or Delete
/// clears; everything else is left to the application. While recording, a plain Escape
/// cancels, a plain Backspace or Delete clears, a modifier key waits for the real key, and
/// any other key is committed with its modifiers.
pub open spec fn hotkey_capture(k: (Modifiers, Seq<char>, Option<Seq<char>>), recording: bool) -> CaptureView {
    let key = k.1;
    let plain = !held_any(k.0);
    if !recording {
        if (key == "enter"@ || key == "space"@) && plain {
            CaptureView::StartRecording
        } else if (key == "backspace"@ || key == "delete"@) && plain {
            CaptureView::Clear
        } else {
            CaptureView::Ignore
        }
    } else if key == "escape"@ && plain {
        CaptureView::Cancel
    } else if (key == "backspace"@ || key == "delete"@) && plain {
        CaptureView::Clear
    } else if modifier_key_name(key) {
        CaptureView::WaitForKey
    } else {
        CaptureView::Commit(k)
    }
}

/// What a hotkey field does with a key press (see [`hotkey_capture`]).
pub fn moon_hotkey_capture(stroke: &Keystroke, recording: bool) -> (r: MoonHotkeyCapture)
    ensures
        capture_view(r) == hotkey_capture(keystroke_view(*stroke), recording),
{
    let key = stroke.key.as_str();
    let plain = !stroke.modifiers.modified();
    if !recording {
        if (str_eq(key, "enter") || str_eq(key, "space")) && plain {
            return MoonHotkeyCapture::StartRecording;
        }
        if (str_eq(key, "backspace") || str_eq(key, "delete")) && plain {
            return MoonHotkeyCapture::Clear;
        }
        return MoonHotkeyCapture::Ignore;
    }
    if str_eq(key, "escape") && plain {
        return MoonHotkeyCapture::Cancel;
    }
    if (str_eq(key, "backspace") || str_eq(key, "delete")) && plain {
        return MoonHotkeyCapture::Clear;
    }
    if is_modifier_key_name(key) {
        return MoonHotkeyCapture::WaitForKey;
    }
    MoonHotkeyCapture::Commit(stroke.copy())
}


/// The labels of the held modifiers, in the order control, alt, shift, platform: symbols on
/// macOS, words elsewhere.
pub open spec fn modifier_labels(m: Modifiers, mac: bool) -> Seq<Seq<char>> {
    (if m.control { seq![if mac { "⌃"@ } else { "Ctrl"@ }] } else { Seq::empty() })
        + (if m.alt { seq![if mac { "⌥"@ } else { "Alt"@ }] } else { Seq::empty() })
        + (if m.shift { seq![if mac { "⇧"@ } else { "Shift"@ }] } else { Seq::empty() })
        + (if m.platform { seq![if mac { "⌘"@ } else { "Win"@ }] } else { Seq::empty() })
}

/// The fixed label of a named key, if it has one.
pub open spec fn named_key_label(k: Seq<char>, mac: bool) -> Option<Seq<char>> {
    if k == "ctrl"@ || k == "control"@ {
        Some(if mac { "⌃"@ } else { "Ctrl"@ })
    } else if k == "alt"@ {
        Some(if mac { "⌥"@ } else { "Alt"@ })
    } else if k == "shift"@ {
        Some(if mac { "⇧"@ } else { "Shift"@ })
    } else if k == "cmd"@ || k == "platform"@ {
        Some(if mac { "⌘"@ } else { "Win"@ })
    } else if k == "function"@ {
        Some("Fn"@)
    } else if k == "capslock"@ {
        Some(if mac { "⇪"@ } else { "Caps Lock"@ })
    } else if k == "space"@ && mac {
        Some("Space"@)
    } else if k == "backspace"@ {
        Some(if mac { "⌫"@ } else { "Backspace"@ })
    } else if k == "delete"@ {
        Some(if mac { "⌫"@ } else { "Delete"@ })
    } else if k == "escape"@ {
        Some(if mac { "⎋"@ } else { "Esc"@ })
    } else if k == "enter"@ {
        Some(if mac { "⏎"@ } else { "Enter"@ })
    } else if k == "pagedown"@ {
        Some("Page Down"@)
    } else if k == "pageup"@ {
        Some("Page Up"@)
    } else if k == "left"@ {
        Some(if mac { "←"@ } else { "Left"@ })
    } else if k == "right"@ {
        Some(if mac { "→"@ } else { "Right"@ })
    } else if k == "up"@ {
        Some(if mac { "↑"@ } else { "Up"@ })
    } else if k == "down"@ {
        Some(if mac { "↓"@ } else { "Down"@ })
    } else {
        None
    }
}

/// The ASCII upper case of `c`; other characters are unchanged.
pub open spec fn ascii_upper(c: char) -> char {
    if 'a' <= c <= 'z' { ((c as int) - 32) as char } else { c }
}

/// The characters std's `char::to_uppercase` gives for `c`.
pub uninterp spec fn char_uppercase(c: char) -> Seq<char>;

/// The upper case of a key's first character: exact for ASCII, the Unicode mapping
/// otherwise.
pub open spec fn upper_first(c: char) -> Seq<char> {
    if (c as int) < 128 { seq![ascii_upper(c)] } else { char_uppercase(c) }
}

/// The label of a key: its fixed label, or the key name with its first character in upper
/// case.
pub open spec fn key_label(k: Seq<char>, mac: bool) -> Seq<char> {
    match named_key_label(k, mac) {
        Some(l) => l,
        None => if k.len() == 0 {
            k
        } else {
            upper_first(k[0]) + k.drop_first()
        },
    }
}

/// `parts` joined with `sep` between neighbours.
pub open spec fn joined(parts: Seq<Seq<char>>, sep: Seq<char>) -> Seq<char>
    decreases parts.len(),
{
    if parts.len() == 0 {
        Seq::empty()
    } else if parts.len() == 1 {
        parts[0]
    } else {
        joined(parts.drop_last(), sep) + sep + parts.last()
    }
}

/// The label a shortcut chip shows for a keystroke: modifier labels, then the key label,
/// joined by nothing on macOS and by `+` elsewhere.
pub open spec fn keystroke_label(k: (Modifiers, Seq<char>, Option<Seq<char>>), mac: bool) -> Seq<char> {
    joined(modifier_labels(k.0, mac).push(key_label(k.1, mac)), if mac { ""@ } else { "+"@ })
}

/// The upper case of one character (`char::to_uppercase`).
///
/// Trusted: the Unicode case mapping of std, which may give several characters; the
/// contract only names that result, so nothing beyond its dependence on `c` is claimed.
#[verifier::external_body]
fn char_to_uppercase(c: char) -> (r: String)
    ensures
        r@ == char_uppercase(c),
{
    c.to_uppercase().collect()
}

/// The fixed label of a named key, if it has one.
fn named_label(k: &str, mac: bool) -> (r: Option<&'static str>)
    ensures
        match r {
            Some(l) => named_key_label(k@, mac) == Some(l@),
            None => named_key_label(k@, mac) is None,
        },
{
    if str_eq(k, "ctrl") || str_eq(k, "control") {
        Some(if mac { "⌃" } else { "Ctrl" })
    } else if str_eq(k, "alt") {
        Some(if mac { "⌥" } else { "Alt" })
    } else if str_eq(k, "shift") {
        Some(if mac { "⇧" } else { "Shift" })
    } else if str_eq(k, "cmd") || str_eq(k, "platform") {
        Some(if mac { "⌘" } else { "Win" })
    } else if str_eq(k, "function") {
        Some("Fn")
    } else if str_eq(k, "capslock") {
        Some(if mac { "⇪" } else { "Caps Lock" })
    } else if str_eq(k, "space") && mac {
        Some("Space")
    } else if str_eq(k, "backspace") {
        Some(if mac { "⌫" } else { "Backspace" })
    } else if str_eq(k, "delete") {
        Some(if mac { "⌫" } else { "Delete" })
    } else if str_eq(k, "escape") {
        Some(if mac { "⎋" } else { "Esc" })
    } else if str_eq(k, "enter") {
        Some(if mac { "⏎" } else { "Enter" })
    } else if str_eq(k, "pagedown") {
        Some("Page Down")
    } else if str_eq(k, "pageup") {
        Some("Page Up")
    } else if str_eq(k, "left") {
        Some(if mac { "←" } else { "Left" })
    } else if str_eq(k, "right") {
        Some(if mac { "→" } else { "Right" })
    } else if str_eq(k, "up") {
        Some(if mac { "↑" } else { "Up" })
    } else if str_eq(k, "down") {
        Some(if mac { "↓" } else { "Down" })
    } else {
        None
    }
}

/// Append the label of a key to `s`.
fn push_key_label(s: &mut String, k: &str, mac: bool)
    ensures
        final(s)@ == old(s)@ + key_label(k@, mac),
{
    match named_label(k, mac) {
        Some(l) => push_str_chars(s, l),
        None => {
            let n = k.unicode_len();
            if n == 0 {
                assert(old(s)@ + k@ =~= old(s)@);
                return;
            }
            let c = k.get_char(0);
            if (c as u32) < 128 {
                let u = if 'a' <= c && c <= 'z' { ((c as u32) - 32) as u8 as char } else { c };
                assert(u == ascii_upper(c));
                push_char(s, u);
            } else {
                let up = char_to_uppercase(c);
                push_str_chars(s, up.as_str());
            }
            let mut i: usize = 1;
            let ghost mid = s@;
            while i < n
                invariant
                    1 <= i <= n,
                    n == k@.len(),
                    s@ == mid + k@.subrange(1, i as int),
                decreases n - i,
            {
                push_char(s, k.get_char(i));
                assert(k@.subrange(1, i + 1) == k@.subrange(1, i as int).push(k@[i as int]));
                i = i + 1;
            }
            assert(k@.subrange(1, n as int) == k@.drop_first());
        },
    }
}

/// The label a shortcut chip shows for a keystroke (see [`keystroke_label`]), with macOS
/// symbols when `mac` is set.
pub fn format_keystroke(key: &Keystroke, mac: bool) -> (r: String)
    ensures
        r@ == keystroke_label(keystroke_view(*key), mac),
{
    let m = key.modifiers;
    let sep = if mac { "" } else { "+" };
    let mut s = String::new();
    let ghost mut parts: Seq<Seq<char>> = Seq::empty();
    let mut first = true;
    if m.control {
        push_str_chars(&mut s, if mac { "⌃" } else { "Ctrl" });
        proof { parts = parts.push(if mac { "⌃"@ } else { "Ctrl"@ }); }
        first = false;
    }
    assert(s@ == joined(parts, sep@));
    if m.alt {
        if !first { push_str_chars(&mut s, sep); }
        push_str_chars(&mut s, if mac { "⌥" } else { "Alt" });
        proof {
            let p0 = parts;
            parts = parts.push(if mac { "⌥"@ } else { "Alt"@ });
            assert(parts.drop_last() == p0);
        }
        first = false;
    }
    assert(s@ == joined(parts, sep@));
    if m.shift {
        if !first { push_str_chars(&mut s, sep); }
        push_str_chars(&mut s, if mac { "⇧" } else { "Shift" });
        proof {
            let p0 = parts;
            parts = parts.push(if mac { "⇧"@ } else { "Shift"@ });
            assert(parts.drop_last() == p0);
        }
        first = false;
    }
    assert(s@ == joined(parts, sep@));
    if m.platform {
        if !first { push_str_chars(&mut s, sep); }
        push_str_chars(&mut s, if mac { "⌘" } else { "Win" });
        proof {
            let p0 = parts;
            parts = parts.push(if mac { "⌘"@ } else { "Win"@ });
            assert(parts.drop_last() == p0);
        }
        first = false;
    }
    assert(s@ == joined(parts, sep@));
    assert(parts == modifier_labels(m, mac));
    if !first { push_str_chars(&mut s, sep); }
    let ghost before = s@;
    push_key_label(&mut s, key.key.as_str(), mac);
    proof {
        let all = parts.push(key_label(key.key@, mac));
        assert(all.drop_last() == parts);
    }
    s
}

/// An unprimed or inactive watch reads every event as a snapshot, never as a press.
pub proof fn lemma_unprimed_watch_ignores(w: WatchState, m: Modifiers, capslock: bool, active: bool)
    requires
        w.1 is None || !active,
    ensures
        watch_step(w, m, capslock, active).1 == CaptureView::Ignore,
        watch_step(w, m, capslock, active).0 == (m, Some(capslock), None::<LoneModifier>),
{
}

/// A forgotten watch reads the next event as a snapshot: nothing is recorded, whatever it
/// says of Caps Lock or the modifiers.
pub proof fn lemma_forgotten_watch_records_nothing(m: Modifiers, capslock: bool, active: bool)
    ensures
        watch_step(fresh_watch(), m, capslock, active).1 == CaptureView::Ignore,
{
}

/// An interrupted tap never fires: releasing every modifier after an interruption records
/// nothing unless Caps Lock flipped.
pub proof fn lemma_interrupted_tap_never_fires(w: WatchState, capslock: bool)
    requires
        w.2 is None,
        w.1 == Some(capslock),
    ensures
        watch_step(w, no_modifiers(), capslock, true).1 == CaptureView::Ignore,
{
}

/// A modifier pressed alone from nothing held and released with nothing in between is
/// recorded as a binding of its own, with no modifiers.
pub proof fn lemma_lone_modifier_tap_commits(w: WatchState, m: Modifiers, capslock: bool)
    requires
        w.1 == Some(capslock),
        !held_any(w.0),
        lone_modifier(m) is Some,
    ensures
        watch_step(w, m, capslock, true).1 == CaptureView::WaitForKey,
        watch_step(watch_step(w, m, capslock, true).0, no_modifiers(), capslock, true).1
            == CaptureView::Commit((no_modifiers(), lone_name(lone_modifier(m)->0), None::<Seq<char>>)),
{
}

/// A modifier left held after releasing part of a chord is never recorded on release.
pub proof fn lemma_chord_remainder_never_fires(w: WatchState, m: Modifiers, capslock: bool)
    requires
        w.1 == Some(capslock),
        held_any(w.0),
        held_any(m),
    ensures
        watch_step(w, m, capslock, true).1 == CaptureView::WaitForKey,
        watch_step(watch_step(w, m, capslock, true).0, no_modifiers(), capslock, true).1 == CaptureView::Ignore,
{
}

/// A flip of Caps Lock on a primed, active watch is recorded as a Caps Lock press with the
/// modifiers held.
pub proof fn lemma_capslock_flip_commits(w: WatchState, m: Modifiers, capslock: bool)
    requires
        w.1 == Some(!capslock),
    ensures
        watch_step(w, m, capslock, true).1 == CaptureView::Commit((m, "capslock"@, None::<Seq<char>>)),
{
}

/// The stored state of a hotkey field: whether it is recording, and the value it holds when
/// no caller controls its value.
#[derive(Debug)]
pub struct HotkeyFieldState {
    pub recording: bool,
    pub value: Option<Keystroke>,
}

/// What a hotkey field does with an event besides updating its state.
#[derive(Debug)]
pub struct HotkeyFieldEffects {
    /// Whether the event stops at the field.
    pub stop_propagation: bool,
    /// Whether the field takes focus and primes its modifier watch with the keyboard's state.
    pub focus_and_prime: bool,
    /// The value reported to the change listener, when one is reported.
    pub change: Option<Option<Keystroke>>,
}

/// The plain value of an optional keystroke.
pub open spec fn opt_keystroke_view(k: Option<Keystroke>) -> Option<(Modifiers, Seq<char>, Option<Seq<char>>)> {
    match k {
        Some(k) => Some(keystroke_view(k)),
        None => None,
    }
}

/// The plain value of a field state: recording, value.
pub open spec fn field_view(s: HotkeyFieldState) -> (bool, Option<(Modifiers, Seq<char>, Option<Seq<char>>)>) {
    (s.recording, opt_keystroke_view(s.value))
}

/// The plain value of field effects: stop, focus and prime, reported change.
pub open spec fn effects_view(e: HotkeyFieldEffects) -> (bool, bool, Option<Option<(Modifiers, Seq<char>, Option<Seq<char>>)>>) {
    (
        e.stop_propagation,
        e.focus_and_prime,
        match e.change {
            Some(v) => Some(opt_keystroke_view(v)),
            None => None,
        },
    )
}

/// How a hotkey field answers a capture decision, its value controlled by a caller or not.
///
/// Starting records with focus and a primed watch; waiting only swallows the key; cancelling
/// stops recording; clearing and committing stop recording, store the new value when no
/// caller controls it, and report it. An ignored key changes nothing.
pub open spec fn field_step(
    s: (bool, Option<(Modifiers, Seq<char>, Option<Seq<char>>)>),
    c: CaptureView,
    controlled: bool,
) -> ((bool, Option<(Modifiers, Seq<char>, Option<Seq<char>>)>), (bool, bool, Option<Option<(Modifiers, Seq<char>, Option<Seq<char>>)>>)) {
    match c {
        CaptureView::Ignore => (s, (false, false, None)),
        CaptureView::StartRecording => ((true, s.1), (true, true, None)),
        CaptureView::WaitForKey => (s, (true, false, None)),
        CaptureView::Cancel => ((false, s.1), (true, false, None)),
        CaptureView::Clear => ((false, if controlled { s.1 } else { None }), (true, false, Some(None))),
        CaptureView::Commit(k) => ((false, if controlled { s.1 } else { Some(k) }), (true, false, Some(Some(k)))),
    }
}

/// The next state of a hotkey field and what it does, for one capture decision.
///
/// A press on the field is a [`MoonHotkeyCapture::StartRecording`], its clear button a
/// [`MoonHotkeyCapture::Clear`], and a modifier change reports the capture of
/// [`MoonHotkeyModifierWatch::modifiers_changed`].
pub fn hotkey_field_step(state: HotkeyFieldState, capture: MoonHotkeyCapture, controlled: bool) -> (r: (HotkeyFieldState, HotkeyFieldEffects))
    ensures
        (field_view(r.0), effects_view(r.1)) == field_step(field_view(state), capture_view(capture), controlled),
{
    let HotkeyFieldState { recording, value } = state;
    match capture {
        MoonHotkeyCapture::Ignore => (
            HotkeyFieldState { recording, value },
            HotkeyFieldEffects { stop_propagation: false, focus_and_prime: false, change: None },
        ),
        MoonHotkeyCapture::StartRecording => (
            HotkeyFieldState { recording: true, value },
            HotkeyFieldEffects { stop_propagation: true, focus_and_prime: true, change: None },
        ),
        MoonHotkeyCapture::WaitForKey => (
            HotkeyFieldState { recording, value },
            HotkeyFieldEffects { stop_propagation: true, focus_and_prime: false, change: None },
        ),
        MoonHotkeyCapture::Cancel => (
            HotkeyFieldState { recording: false, value },
            HotkeyFieldEffects { stop_propagation: true, focus_and_prime: false, change: None },
        ),
        MoonHotkeyCapture::Clear => (
            HotkeyFieldState { recording: false, value: if controlled { value } else { None } },
            HotkeyFieldEffects { stop_propagation: true, focus_and_prime: false, change: Some(None) },
        ),
        MoonHotkeyCapture::Commit(k) => {
            let reported = k.copy();
            (
                HotkeyFieldState { recording: false, value: if controlled { value } else { Some(k) } },
                HotkeyFieldEffects { stop_propagation: true, focus_and_prime: false, change: Some(Some(reported)) },
            )
        },
    }
}

/// A field whose value a caller controls never changes its own value; it only reports.
pub proof fn lemma_controlled_field_keeps_its_value(
    s: (bool, Option<(Modifiers, Seq<char>, Option<Seq<char>>)>),
    c: CaptureView,
)
    ensures
        field_step(s, c, true).0.1 == s.1,
{
}

/// Committing or clearing ends recording and reports exactly the value an uncontrolled field
/// then holds.
pub proof fn lemma_reported_value_is_stored(
    s: (bool, Option<(Modifiers, Seq<char>, Option<Seq<char>>)>),
    c: CaptureView,
)
    requires
        c is Commit || c is Clear,
    ensures
        !field_step(s, c, false).0.0,
        field_step(s, c, false).1.2 == Some(field_step(s, c, false).0.1),
{
}

/// The length and first character of a named key's label.
spec fn label_fingerprint(k: Seq<char>, mac: bool) -> (int, char) {
    if k == "ctrl"@ || k == "control"@ {
        if mac { (1int, '⌃') } else { (4int, 'C') }
    } else if k == "alt"@ {
        if mac { (1int, '⌥') } else { (3int, 'A') }
    } else if k == "shift"@ {
        if mac { (1int, '⇧') } else { (5int, 'S') }
    } else if k == "cmd"@ || k == "platform"@ {
        if mac { (1int, '⌘') } else { (3int, 'W') }
    } else if k == "function"@ {
        (2int, 'F')
    } else if k == "capslock"@ {
        if mac { (1int, '⇪') } else { (9int, 'C') }
    } else if k == "space"@ && mac {
        (5int, 'S')
    } else if k == "backspace"@ {
        if mac { (1int, '⌫') } else { (9int, 'B') }
    } else if k == "delete"@ {
        if mac { (1int, '⌫') } else { (6int, 'D') }
    } else if k == "escape"@ {
        if mac { (1int, '⎋') } else { (3int, 'E') }
    } else if k == "enter"@ {
        if mac { (1int, '⏎') } else { (5int, 'E') }
    } else if k == "pagedown"@ {
        (9int, 'P')
    } else if k == "pageup"@ {
        (7int, 'P')
    } else if k == "left"@ {
        if mac { (1int, '←') } else { (4int, 'L') }
    } else if k == "right"@ {
        if mac { (1int, '→') } else { (5int, 'R') }
    } else if k == "up"@ {
        if mac { (1int, '↑') } else { (2int, 'U') }
    } else if k == "down"@ {
        if mac { (1int, '↓') } else { (4int, 'D') }
    } else {
        (0int, ' ')
    }
}

/// Whether two named keys are spellings of one key: `ctrl` and `control`, `cmd` and
/// `platform`, and on macOS `backspace` and `delete`, which share the erase symbol.
pub open spec fn same_named_key(a: Seq<char>, b: Seq<char>, mac: bool) -> bool {
    ||| (a == "ctrl"@ || a == "control"@) && (b == "ctrl"@ || b == "control"@)
    ||| (a == "cmd"@ || a == "platform"@) && (b == "cmd"@ || b == "platform"@)
    ||| mac && (a == "backspace"@ || a == "delete"@) && (b == "backspace"@ || b == "delete"@)
}

proof fn lemma_label_fingerprint(k: Seq<char>, mac: bool)
    requires
        named_key_label(k, mac) is Some,
    ensures
        key_label(k, mac).len() == label_fingerprint(k, mac).0,
        key_label(k, mac)[0] == label_fingerprint(k, mac).1,
{
    reveal_strlit("Alt");
    reveal_strlit("Backspace");
    reveal_strlit("Caps Lock");
    reveal_strlit("Ctrl");
    reveal_strlit("Delete");
    reveal_strlit("Down");
    reveal_strlit("Enter");
    reveal_strlit("Esc");
    reveal_strlit("Fn");
    reveal_strlit("Left");
    reveal_strlit("Page Down");
    reveal_strlit("Page Up");
    reveal_strlit("Right");
    reveal_strlit("Shift");
    reveal_strlit("Space");
    reveal_strlit("Up");
    reveal_strlit("Win");
    reveal_strlit("alt");
    reveal_strlit("backspace");
    reveal_strlit("capslock");
    reveal_strlit("cmd");
    reveal_strlit("control");
    reveal_strlit("ctrl");
    reveal_strlit("delete");
    reveal_strlit("down");
    reveal_strlit("enter");
    reveal_strlit("escape");
    reveal_strlit("function");
    reveal_strlit("left");
    reveal_strlit("pagedown");
    reveal_strlit("pageup");
    reveal_strlit("platform");
    reveal_strlit("right");
    reveal_strlit("shift");
    reveal_strlit("space");
    reveal_strlit("up");
    reveal_strlit("←");
    reveal_strlit("↑");
    reveal_strlit("→");
    reveal_strlit("↓");
    reveal_strlit("⇧");
    reveal_strlit("⇪");
    reveal_strlit("⌃");
    reveal_strlit("⌘");
    reveal_strlit("⌥");
    reveal_strlit("⌫");
    reveal_strlit("⎋");
    reveal_strlit("⏎");
}

/// Different named keys read differently on a chip, spellings of one key aside.
pub proof fn lemma_named_key_labels_differ(a: Seq<char>, b: Seq<char>, mac: bool)
    requires
        named_key_label(a, mac) is Some,
        named_key_label(b, mac) is Some,
        a != b,
        !same_named_key(a, b, mac),
    ensures
        key_label(a, mac) != key_label(b, mac),
{
    lemma_label_fingerprint(a, mac);
    lemma_label_fingerprint(b, mac);
    reveal_strlit("Alt");
    reveal_strlit("Backspace");
    reveal_strlit("Caps Lock");
    reveal_strlit("Ctrl");
    reveal_strlit("Delete");
    reveal_strlit("Down");
    reveal_strlit("Enter");
    reveal_strlit("Esc");
    reveal_strlit("Fn");
    reveal_strlit("Left");
    reveal_strlit("Page Down");
    reveal_strlit("Page Up");
    reveal_strlit("Right");
    reveal_strlit("Shift");
    reveal_strlit("Space");
    reveal_strlit("Up");
    reveal_strlit("Win");
    reveal_strlit("alt");
    reveal_strlit("backspace");
    reveal_strlit("capslock");
    reveal_strlit("cmd");
    reveal_strlit("control");
    reveal_strlit("ctrl");
    reveal_strlit("delete");
    reveal_strlit("down");
    reveal_strlit("enter");
    reveal_strlit("escape");
    reveal_strlit("function");
    reveal_strlit("left");
    reveal_strlit("pagedown");
    reveal_strlit("pageup");
    reveal_strlit("platform");
    reveal_strlit("right");
    reveal_strlit("shift");
    reveal_strlit("space");
    reveal_strlit("up");
    reveal_strlit("←");
    reveal_strlit("↑");
    reveal_strlit("→");
    reveal_strlit("↓");
    reveal_strlit("⇧");
    reveal_strlit("⇪");
    reveal_strlit("⌃");
    reveal_strlit("⌘");
    reveal_strlit("⌥");
    reveal_strlit("⌫");
    reveal_strlit("⎋");
    reveal_strlit("⏎");
    assert(label_fingerprint(a, mac) != label_fingerprint(b, mac));
}

/// Away from macOS, the keys named by a word read as that word with its first letter in
/// upper case, as any other key does.
pub proof fn lemma_word_keys_read_as_their_names(k: Seq<char>)
    requires
        k == "alt"@ || k == "shift"@ || k == "backspace"@ || k == "delete"@ || k == "enter"@
            || k == "left"@ || k == "right"@ || k == "up"@ || k == "down"@,
    ensures
        k.len() > 0,
        key_label(k, false) == seq![ascii_upper(k[0])] + k.drop_first(),
{
    reveal_strlit("Alt");
    reveal_strlit("Backspace");
    reveal_strlit("Caps Lock");
    reveal_strlit("Ctrl");
    reveal_strlit("Delete");
    reveal_strlit("Down");
    reveal_strlit("Enter");
    reveal_strlit("Esc");
    reveal_strlit("Fn");
    reveal_strlit("Left");
    reveal_strlit("Page Down");
    reveal_strlit("Page Up");
    reveal_strlit("Right");
    reveal_strlit("Shift");
    reveal_strlit("Space");
    reveal_strlit("Up");
    reveal_strlit("Win");
    reveal_strlit("alt");
    reveal_strlit("backspace");
    reveal_strlit("capslock");
    reveal_strlit("cmd");
    reveal_strlit("control");
    reveal_strlit("ctrl");
    reveal_strlit("delete");
    reveal_strlit("down");
    reveal_strlit("enter");
    reveal_strlit("escape");
    reveal_strlit("function");
    reveal_strlit("left");
    reveal_strlit("pagedown");
    reveal_strlit("pageup");
    reveal_strlit("platform");
    reveal_strlit("right");
    reveal_strlit("shift");
    reveal_strlit("space");
    reveal_strlit("up");
    reveal_strlit("←");
    reveal_strlit("↑");
    reveal_strlit("→");
    reveal_strlit("↓");
    reveal_strlit("⇧");
    reveal_strlit("⇪");
    reveal_strlit("⌃");
    reveal_strlit("⌘");
    reveal_strlit("⌥");
    reveal_strlit("⌫");
    reveal_strlit("⎋");
    reveal_strlit("⏎");
    assert(k.drop_first() == k.subrange(1, k.len() as int));
}

/// The place of an arrow key in the Unicode Arrows block's first four arrows: left, up,
/// right, down.
pub open spec fn arrow_rank(k: Seq<char>) -> int {
    if k == "left"@ { 0 } else if k == "up"@ { 1 } else if k == "right"@ { 2 } else { 3 }
}

/// On macOS the arrow keys read as the arrow pointing their way, one character of the
/// Unicode Arrows block in its order left, up, right, down.
pub proof fn lemma_mac_arrow_labels(k: Seq<char>)
    requires
        k == "left"@ || k == "up"@ || k == "right"@ || k == "down"@,
    ensures
        key_label(k, true) == seq![(0x2190 + arrow_rank(k)) as char],
{
    reveal_strlit("Alt");
    reveal_strlit("Backspace");
    reveal_strlit("Caps Lock");
    reveal_strlit("Ctrl");
    reveal_strlit("Delete");
    reveal_strlit("Down");
    reveal_strlit("Enter");
    reveal_strlit("Esc");
    reveal_strlit("Fn");
    reveal_strlit("Left");
    reveal_strlit("Page Down");
    reveal_strlit("Page Up");
    reveal_strlit("Right");
    reveal_strlit("Shift");
    reveal_strlit("Space");
    reveal_strlit("Up");
    reveal_strlit("Win");
    reveal_strlit("alt");
    reveal_strlit("backspace");
    reveal_strlit("capslock");
    reveal_strlit("cmd");
    reveal_strlit("control");
    reveal_strlit("ctrl");
    reveal_strlit("delete");
    reveal_strlit("down");
    reveal_strlit("enter");
    reveal_strlit("escape");
    reveal_strlit("function");
    reveal_strlit("left");
    reveal_strlit("pagedown");
    reveal_strlit("pageup");
    reveal_strlit("platform");
    reveal_strlit("right");
    reveal_strlit("shift");
    reveal_strlit("space");
    reveal_strlit("up");
    reveal_strlit("←");
    reveal_strlit("↑");
    reveal_strlit("→");
    reveal_strlit("↓");
    reveal_strlit("⇧");
    reveal_strlit("⇪");
    reveal_strlit("⌃");
    reveal_strlit("⌘");
    reveal_strlit("⌥");
    reveal_strlit("⌫");
    reveal_strlit("⎋");
    reveal_strlit("⏎");
    if k == "left"@ {
        assert(k[0] != "ctrl"@[0]);
        assert(k != "ctrl"@);
        assert(k.len() != "control"@.len());
        assert(k != "control"@);
        assert(k.len() != "alt"@.len());
        assert(k != "alt"@);
        assert(k.len() != "shift"@.len());
        assert(k != "shift"@);
        assert(k.len() != "cmd"@.len());
        assert(k != "cmd"@);
        assert(k.len() != "platform"@.len());
        assert(k != "platform"@);
        assert(k.len() != "function"@.len());
        assert(k != "function"@);
        assert(k.len() != "capslock"@.len());
        assert(k != "capslock"@);
        assert(k.len() != "space"@.len());
        assert(k != "space"@);
        assert(k.len() != "backspace"@.len());
        assert(k != "backspace"@);
        assert(k.len() != "delete"@.len());
        assert(k != "delete"@);
        assert(k.len() != "escape"@.len());
        assert(k != "escape"@);
        assert(k.len() != "enter"@.len());
        assert(k != "enter"@);
        assert(k.len() != "pagedown"@.len());
        assert(k != "pagedown"@);
        assert(k.len() != "pageup"@.len());
        assert(k != "pageup"@);
        assert(named_key_label(k, true) == Some("←"@));
        assert(key_label(k, true) == "←"@);
        assert("←"@ =~= seq![(0x2190 + 0int) as char]);
    } else if k == "up"@ {
        assert(k.len() != "ctrl"@.len());
        assert(k != "ctrl"@);
        assert(k.len() != "control"@.len());
        assert(k != "control"@);
        assert(k.len() != "alt"@.len());
        assert(k != "alt"@);
        assert(k.len() != "shift"@.len());
        assert(k != "shift"@);
        assert(k.len() != "cmd"@.len());
        assert(k != "cmd"@);
        assert(k.len() != "platform"@.len());
        assert(k != "platform"@);
        assert(k.len() != "function"@.len());
        assert(k != "function"@);
        assert(k.len() != "capslock"@.len());
        assert(k != "capslock"@);
        assert(k.len() != "space"@.len());
        assert(k != "space"@);
        assert(k.len() != "backspace"@.len());
        assert(k != "backspace"@);
        assert(k.len() != "delete"@.len());
        assert(k != "delete"@);
        assert(k.len() != "escape"@.len());
        assert(k != "escape"@);
        assert(k.len() != "enter"@.len());
        assert(k != "enter"@);
        assert(k.len() != "pagedown"@.len());
        assert(k != "pagedown"@);
        assert(k.len() != "pageup"@.len());
        assert(k != "pageup"@);
        assert(k.len() != "left"@.len());
        assert(k != "left"@);
        assert(k.len() != "right"@.len());
        assert(k != "right"@);
        assert(named_key_label(k, true) == Some("↑"@));
        assert(key_label(k, true) == "↑"@);
        assert("↑"@ =~= seq![(0x2190 + 1int) as char]);
    } else if k == "right"@ {
        assert(k.len() != "ctrl"@.len());
        assert(k != "ctrl"@);
        assert(k.len() != "control"@.len());
        assert(k != "control"@);
        assert(k.len() != "alt"@.len());
        assert(k != "alt"@);
        assert(k[0] != "shift"@[0]);
        assert(k != "shift"@);
        assert(k.len() != "cmd"@.len());
        assert(k != "cmd"@);
        assert(k.len() != "platform"@.len());
        assert(k != "platform"@);
        assert(k.len() != "function"@.len());
        assert(k != "function"@);
        assert(k.len() != "capslock"@.len());
        assert(k != "capslock"@);
        assert(k[0] != "space"@[0]);
        assert(k != "space"@);
        assert(k.len() != "backspace"@.len());
        assert(k != "backspace"@);
        assert(k.len() != "delete"@.len());
        assert(k != "delete"@);
        assert(k.len() != "escape"@.len());
        assert(k != "escape"@);
        assert(k[0] != "enter"@[0]);
        assert(k != "enter"@);
        assert(k.len() != "pagedown"@.len());
        assert(k != "pagedown"@);
        assert(k.len() != "pageup"@.len());
        assert(k != "pageup"@);
        assert(k.len() != "left"@.len());
        assert(k != "left"@);
        assert(named_key_label(k, true) == Some("→"@));
        assert(key_label(k, true) == "→"@);
        assert("→"@ =~= seq![(0x2190 + 2int) as char]);
    } else {
        assert(k[0] != "ctrl"@[0]);
        assert(k != "ctrl"@);
        assert(k.len() != "control"@.len());
        assert(k != "control"@);
        assert(k.len() != "alt"@.len());
        assert(k != "alt"@);
        assert(k.len() != "shift"@.len());
        assert(k != "shift"@);
        assert(k.len() != "cmd"@.len());
        assert(k != "cmd"@);
        assert(k.len() != "platform"@.len());
        assert(k != "platform"@);
        assert(k.len() != "function"@.len());
        assert(k != "function"@);
        assert(k.len() != "capslock"@.len());
        assert(k != "capslock"@);
        assert(k.len() != "space"@.len());
        assert(k != "space"@);
        assert(k.len() != "backspace"@.len());
        assert(k != "backspace"@);
        assert(k.len() != "delete"@.len());
        assert(k != "delete"@);
        assert(k.len() != "escape"@.len());
        assert(k != "escape"@);
        assert(k.len() != "enter"@.len());
        assert(k != "enter"@);
        assert(k.len() != "pagedown"@.len());
        assert(k != "pagedown"@);
        assert(k.len() != "pageup"@.len());
        assert(k != "pageup"@);
        assert(k[0] != "left"@[0]);
        assert(k != "left"@);
        assert(k.len() != "right"@.len());
        assert(k != "right"@);
        assert(k.len() != "up"@.len());
        assert(k != "up"@);
        assert(named_key_label(k, true) == Some("↓"@));
        assert(key_label(k, true) == "↓"@);
        assert("↓"@ =~= seq![(0x2190 + 3int) as char]);
    }
}

/// Joining a part before others puts it, then the separator, before their joining.
proof fn lemma_joined_front(x: Seq<char>, rest: Seq<Seq<char>>, sep: Seq<char>)
    requires
        rest.len() > 0,
    ensures
        joined(seq![x] + rest, sep) == x + sep + joined(rest, sep),
    decreases rest.len(),
{
    let all = seq![x] + rest;
    if rest.len() == 1 {
        assert(all.drop_last() == seq![x]);
        assert(all.last() == rest[0]);
        assert(joined(seq![x], sep) == x);
        assert(joined(all, sep) == joined(all.drop_last(), sep) + sep + all.last());
        assert(joined(rest, sep) == rest[0]);
    } else {
        lemma_joined_front(x, rest.drop_last(), sep);
        assert(all.drop_last() == seq![x] + rest.drop_last());
        assert(all.last() == rest.last());
        assert(joined(all, sep) == joined(all.drop_last(), sep) + sep + all.last());
        assert(joined(rest, sep) == joined(rest.drop_last(), sep) + sep + rest.last());
        assert(x + sep + joined(rest.drop_last(), sep) + sep + rest.last()
            == x + sep + (joined(rest.drop_last(), sep) + sep + rest.last()));
    }
}

/// Holding Control as well puts its label in front of a shortcut's label: `Ctrl+` away from
/// macOS, the control symbol on macOS, and changes nothing else.
pub proof fn lemma_control_leads_the_label(m: Modifiers, key: Seq<char>, key_char: Option<Seq<char>>, mac: bool)
    requires
        !m.control,
    ensures
        keystroke_label((Modifiers { control: true, ..m }, key, key_char), mac)
            == (if mac { "⌃"@ } else { "Ctrl+"@ }) + keystroke_label((m, key, key_char), mac),
{
    reveal_strlit("Ctrl+");
    reveal_strlit("Ctrl");
    reveal_strlit("+");
    reveal_strlit("");
    let c = Modifiers { control: true, ..m };
    let rest = modifier_labels(m, mac).push(key_label(key, mac));
    let sep = if mac { ""@ } else { "+"@ };
    let x = if mac { "⌃"@ } else { "Ctrl"@ };
    assert(modifier_labels(c, mac) == seq![x] + modifier_labels(m, mac));
    assert(modifier_labels(c, mac).push(key_label(key, mac)) == seq![x] + rest);
    lemma_joined_front(x, rest, sep);
    if mac {
        assert("⌃"@ + ""@ == "⌃"@);
    } else {
        assert("Ctrl"@ + "+"@ == "Ctrl+"@);
    }
}

/// A shortcut without modifiers reads as its key's label.
pub proof fn lemma_plain_key_reads_as_its_label(key: Seq<char>, key_char: Option<Seq<char>>, mac: bool)
    ensures
        keystroke_label((no_modifiers(), key, key_char), mac) == key_label(key, mac),
{
    assert(modifier_labels(no_modifiers(), mac) == Seq::<Seq<char>>::empty());
    assert(Seq::<Seq<char>>::empty().push(key_label(key, mac)) == seq![key_label(key, mac)]);
}

} // verus!
