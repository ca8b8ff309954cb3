use moon_ui_components::keys::{
    hotkey_field_step, HotkeyFieldState,
    format_keystroke, is_modifier_key_name, lone_modifier_key, moon_hotkey_capture, Keystroke, LoneModifier, Modifiers,
    MoonHotkeyCapture, MoonHotkeyModifierWatch,
};

fn mods(control: bool, alt: bool, shift: bool, platform: bool) -> Modifiers {
    Modifiers { control, alt, shift, platform, function: false }
}

fn none() -> Modifiers {
    Modifiers::none()
}

fn ks(m: Modifiers, key: &str) -> Keystroke {
    Keystroke { modifiers: m, key: key.to_string(), key_char: None }
}

#[test]
fn hotkey_input_does_not_steal_global_shortcuts_when_idle() {
    let stroke = ks(mods(true, false, false, false), "k");
    assert_eq!(moon_hotkey_capture(&stroke, false), MoonHotkeyCapture::Ignore);
}

#[test]
fn hotkey_input_starts_recording_from_keyboard_activation() {
    assert_eq!(moon_hotkey_capture(&ks(none(), "enter"), false), MoonHotkeyCapture::StartRecording);
    assert_eq!(moon_hotkey_capture(&ks(none(), "space"), false), MoonHotkeyCapture::StartRecording);
}

#[test]
fn hotkey_input_waits_for_non_modifier_key() {
    assert_eq!(moon_hotkey_capture(&ks(none(), "control"), true), MoonHotkeyCapture::WaitForKey);
}

#[test]
fn hotkey_input_commits_full_chord_while_recording() {
    let stroke = ks(mods(true, true, false, false), "k");
    assert_eq!(moon_hotkey_capture(&stroke, true), MoonHotkeyCapture::Commit(stroke));
}

#[test]
fn hotkey_input_escape_cancels_and_delete_clears() {
    assert_eq!(moon_hotkey_capture(&ks(none(), "escape"), true), MoonHotkeyCapture::Cancel);
    assert_eq!(moon_hotkey_capture(&ks(none(), "delete"), true), MoonHotkeyCapture::Clear);
    assert_eq!(moon_hotkey_capture(&ks(none(), "backspace"), false), MoonHotkeyCapture::Clear);
}

#[test]
fn hotkey_input_can_record_modified_control_keys() {
    for key in ["delete", "backspace", "enter", "space"] {
        let stroke = ks(mods(true, false, false, false), key);
        assert_eq!(moon_hotkey_capture(&stroke, true), MoonHotkeyCapture::Commit(stroke.clone()), "ctrl-{key} must be recordable");
        assert_eq!(moon_hotkey_capture(&stroke, false), MoonHotkeyCapture::Ignore, "ctrl-{key} must not control the field while idle");
    }
}

#[test]
fn hotkey_input_records_a_lone_modifier_on_release() {
    let mut watch = MoonHotkeyModifierWatch::default();
    watch.prime(none(), false);
    assert_eq!(watch.modifiers_changed(mods(false, true, false, false), false, true), MoonHotkeyCapture::WaitForKey);
    assert_eq!(watch.modifiers_changed(none(), false, true), MoonHotkeyCapture::Commit(ks(none(), "alt")));
}

#[test]
fn hotkey_input_ignores_a_modifier_that_led_a_chord() {
    let mut watch = MoonHotkeyModifierWatch::default();
    watch.prime(none(), false);
    watch.modifiers_changed(mods(false, true, false, false), false, true);
    watch.interrupt();
    assert_eq!(watch.modifiers_changed(none(), false, true), MoonHotkeyCapture::Ignore);

    let mut watch = MoonHotkeyModifierWatch::default();
    watch.prime(none(), false);
    watch.modifiers_changed(mods(true, false, false, false), false, true);
    watch.modifiers_changed(mods(true, true, false, false), false, true);
    watch.modifiers_changed(mods(false, true, false, false), false, true);
    assert_eq!(watch.modifiers_changed(none(), false, true), MoonHotkeyCapture::Ignore);
}

#[test]
fn hotkey_input_records_capslock_from_its_state_flip() {
    let mut watch = MoonHotkeyModifierWatch::default();
    assert_eq!(watch.modifiers_changed(none(), true, true), MoonHotkeyCapture::Ignore);
    assert_eq!(watch.modifiers_changed(none(), false, true), MoonHotkeyCapture::Commit(ks(none(), "capslock")));
    assert_eq!(
        watch.modifiers_changed(mods(true, false, false, false), true, true),
        MoonHotkeyCapture::Commit(ks(mods(true, false, false, false), "capslock"))
    );
}

#[test]
fn hotkey_input_modifier_watch_is_silent_while_idle() {
    let mut watch = MoonHotkeyModifierWatch::default();
    watch.prime(none(), false);
    assert_eq!(watch.modifiers_changed(mods(false, true, false, false), false, false), MoonHotkeyCapture::Ignore);
    assert_eq!(watch.modifiers_changed(none(), true, false), MoonHotkeyCapture::Ignore);
}

#[test]
fn a_state_snapshot_after_losing_focus_is_not_a_press() {
    let mut watch = MoonHotkeyModifierWatch::default();
    watch.prime(none(), false);
    watch.forget();
    assert_eq!(watch.modifiers_changed(mods(false, true, false, false), true, true), MoonHotkeyCapture::Ignore);
    assert_eq!(watch.modifiers_changed(none(), true, true), MoonHotkeyCapture::Ignore);
    assert_eq!(watch.modifiers_changed(none(), false, true), MoonHotkeyCapture::Commit(ks(none(), "capslock")));
}

#[test]
fn lone_modifier_needs_exactly_one_held() {
    assert_eq!(lone_modifier_key(mods(false, false, true, false)), Some(LoneModifier::Shift));
    assert_eq!(lone_modifier_key(mods(true, true, false, false)), None);
    assert_eq!(lone_modifier_key(none()), None);
    assert!(is_modifier_key_name("super") && is_modifier_key_name("fn") && !is_modifier_key_name("a"));
}

#[test]
fn kbd_formats_keystrokes_like_longbridge() {
    assert_eq!(format_keystroke(&ks(mods(true, false, false, false), "a"), false), "Ctrl+A");
    assert_eq!(format_keystroke(&ks(mods(true, true, true, false), "a"), false), "Ctrl+Alt+Shift+A");
    assert_eq!(format_keystroke(&ks(mods(false, false, false, true), "enter"), true), "⌘⏎");
    assert_eq!(format_keystroke(&ks(mods(true, false, true, true), "a"), true), "⌃⇧⌘A");
}

#[test]
fn kbd_labels_modifier_only_and_capslock_shortcuts() {
    assert_eq!(format_keystroke(&ks(none(), "control"), false), "Ctrl");
    assert_eq!(format_keystroke(&ks(none(), "alt"), false), "Alt");
    assert_eq!(format_keystroke(&ks(none(), "platform"), false), "Win");
    assert_eq!(format_keystroke(&ks(none(), "capslock"), false), "Caps Lock");
    assert_eq!(format_keystroke(&ks(mods(true, false, false, false), "capslock"), false), "Ctrl+Caps Lock");
    assert_eq!(format_keystroke(&ks(none(), "control"), true), "⌃");
    assert_eq!(format_keystroke(&ks(none(), "capslock"), true), "⇪");
}

#[test]
fn kbd_capitalizes_other_keys() {
    assert_eq!(format_keystroke(&ks(none(), "f5"), false), "F5");
    assert_eq!(format_keystroke(&ks(none(), "pagedown"), false), "Page Down");
    assert_eq!(format_keystroke(&ks(none(), "space"), false), "Space");
    assert_eq!(format_keystroke(&ks(none(), "ä"), false), "Ä");
    assert_eq!(format_keystroke(&ks(none(), "ßx"), false), "SSx");
    assert_eq!(format_keystroke(&ks(none(), ""), false), "");
}

#[test]
fn a_committed_shortcut_stops_recording_and_is_stored_and_reported() {
    let idle = HotkeyFieldState { recording: false, value: None };
    let (rec, fx) = hotkey_field_step(idle, moon_hotkey_capture(&ks(none(), "enter"), false), false);
    assert!(rec.recording && fx.stop_propagation && fx.focus_and_prime && fx.change.is_none());
    let stroke = ks(mods(true, false, false, false), "k");
    let capture = moon_hotkey_capture(&stroke, true);
    let (done, fx) = hotkey_field_step(rec, capture, false);
    assert!(!done.recording);
    assert_eq!(done.value, Some(stroke.clone()));
    assert_eq!(fx.change, Some(Some(stroke.clone())));
    let (cleared, fx) = hotkey_field_step(HotkeyFieldState { recording: true, value: done.value }, MoonHotkeyCapture::Clear, false);
    assert!(!cleared.recording && cleared.value.is_none());
    assert_eq!(fx.change, Some(None));
}

#[test]
fn a_controlled_field_reports_but_keeps_its_value() {
    let held = ks(none(), "f5");
    let stroke = ks(mods(false, true, false, false), "x");
    let (next, fx) = hotkey_field_step(
        HotkeyFieldState { recording: true, value: Some(held.clone()) },
        MoonHotkeyCapture::Commit(stroke.clone()),
        true,
    );
    assert!(!next.recording);
    assert_eq!(next.value, Some(held.clone()));
    assert_eq!(fx.change, Some(Some(stroke)));
    let (next, fx) = hotkey_field_step(
        HotkeyFieldState { recording: true, value: Some(held.clone()) },
        MoonHotkeyCapture::Cancel,
        false,
    );
    assert!(!next.recording && fx.stop_propagation && fx.change.is_none());
    assert_eq!(next.value, Some(held));
    let (same, fx) = hotkey_field_step(HotkeyFieldState { recording: false, value: None }, MoonHotkeyCapture::Ignore, false);
    assert!(!same.recording && same.value.is_none() && !fx.stop_propagation);
}
