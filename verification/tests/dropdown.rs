use moon_ui_components::dropdown::layout::{menu_level_is_virtualized, menu_width_sample};
use moon_ui_components::dropdown::model::{MenuLayoutFingerprint, MoonMenuItem, MoonMenuItemKind, MoonMenuLevel, MoonTone};
use moon_ui_components::dropdown::selection::{
    moon_dropdown_select_plan, moon_menu_item_accepts_click, MoonDropdownSelectPlan,
};

fn s(t: &str) -> String {
    t.to_string()
}

fn check_menu_item_clickability() {
    let action_label = MoonMenuItem::action_label(s("action"), s("Action label"));
    assert_eq!(action_label.kind, MoonMenuItemKind::Label);
    assert!(!action_label.disabled);
    assert!(action_label.actionable);

    assert!(moon_menu_item_accepts_click(MoonMenuItemKind::Item, false, false));
    assert!(!moon_menu_item_accepts_click(MoonMenuItemKind::Item, true, true));
    assert!(moon_menu_item_accepts_click(MoonMenuItemKind::Label, false, true));
    assert!(!moon_menu_item_accepts_click(MoonMenuItemKind::Label, false, false));
    assert!(!moon_menu_item_accepts_click(MoonMenuItemKind::Label, true, true));
    assert!(!moon_menu_item_accepts_click(MoonMenuItemKind::Separator, false, true));
}

#[test]
fn menu_item_clickability_respects_kind_and_disabled_state() {
    check_menu_item_clickability();
}

#[test]
fn tests_menu_item_clickability_respects_kind_and_disabled_state() {
    check_menu_item_clickability();
}

fn check_select_plan_respects_close_and_controlled_state() {
    assert_eq!(
        moon_dropdown_select_plan(true, None, None),
        MoonDropdownSelectPlan { close_menu: true, update_internal_open: true }
    );
    assert_eq!(
        moon_dropdown_select_plan(true, None, Some(true)),
        MoonDropdownSelectPlan { close_menu: true, update_internal_open: false }
    );
    assert_eq!(
        moon_dropdown_select_plan(false, None, None),
        MoonDropdownSelectPlan { close_menu: false, update_internal_open: false }
    );
}

fn check_select_plan_row_override_wins() {
    assert_eq!(
        moon_dropdown_select_plan(false, Some(true), None),
        MoonDropdownSelectPlan { close_menu: true, update_internal_open: true },
        "closes_menu(true) must close a close_on_select(false) dropdown and clear its internal open state"
    );
    assert_eq!(
        moon_dropdown_select_plan(true, Some(false), None),
        MoonDropdownSelectPlan { close_menu: false, update_internal_open: false },
        "closes_menu(false) must keep a close_on_select(true) dropdown open and leave its internal open state untouched"
    );
}

#[test]
fn dropdown_select_plan_respects_close_and_controlled_state() {
    check_select_plan_respects_close_and_controlled_state();
}

#[test]
fn tests_dropdown_select_plan_respects_close_and_controlled_state() {
    check_select_plan_respects_close_and_controlled_state();
}

#[test]
fn dropdown_select_plan_row_override_wins_over_dropdown_policy() {
    check_select_plan_row_override_wins();
}

#[test]
fn tests_dropdown_select_plan_row_override_wins_over_dropdown_policy() {
    check_select_plan_row_override_wins();
}

#[test]
fn select_plan_follows_a_controlled_owner_for_row_forced_closes() {
    assert_eq!(
        moon_dropdown_select_plan(false, Some(true), Some(false)),
        MoonDropdownSelectPlan { close_menu: true, update_internal_open: false }
    );
}

#[test]
fn menu_layout_fingerprint_tracks_count_and_row_order() {
    let item_then_label = MoonMenuLevel::new(vec![MoonMenuItem::new(s("item")), MoonMenuItem::label(s("label"))]);
    let label_then_item = MoonMenuLevel::new(vec![MoonMenuItem::label(s("label")), MoonMenuItem::new(s("item"))]);

    assert_eq!(item_then_label.layout().item_count, 2);
    assert_eq!(label_then_item.layout().item_count, 2);
    assert_ne!(
        item_then_label.layout(),
        label_then_item.layout(),
        "same-length menus with different row order need distinct retained layouts"
    );
}

#[test]
fn fingerprint_is_fnv1a_over_kind_tags() {
    let mut f = MenuLayoutFingerprint::new();
    assert_eq!(f, MenuLayoutFingerprint::default());
    assert_eq!(f.kind_hash, 0xcbf2_9ce4_8422_2325);
    f.push(MoonMenuItemKind::Item);
    let expected = (0xcbf2_9ce4_8422_2325u64 ^ 1).wrapping_mul(0x0000_0100_0000_01b3);
    assert_eq!(f.item_count, 1);
    assert_eq!(f.kind_hash, expected);
    f.push(MoonMenuItemKind::Separator);
    assert_eq!(f.kind_hash, (expected ^ 3).wrapping_mul(0x0000_0100_0000_01b3));
}

#[test]
fn extending_a_level_matches_building_it_at_once() {
    let mut level = MoonMenuLevel::new(vec![MoonMenuItem::new(s("a"))]);
    level.extend(vec![MoonMenuItem::separator(), MoonMenuItem::label(s("b"))]);
    let whole = MoonMenuLevel::new(vec![
        MoonMenuItem::new(s("a")),
        MoonMenuItem::separator(),
        MoonMenuItem::label(s("b")),
    ]);
    assert_eq!(level.layout(), whole.layout());
    assert_eq!(level.len(), 3);
    assert_eq!(level.as_slice()[1].key, "separator");
}

#[test]
fn menu_item_clone_preserves_closes_menu_override() {
    let forces_close = MoonMenuItem::new(s("dialog-row")).closes_menu(true);
    assert_eq!(
        forces_close.clone().closes_menu,
        Some(true),
        "cloning a row that forces the menu closed must preserve that override"
    );
    let forces_keep_open = MoonMenuItem::new(s("checkbox-row")).closes_menu(false);
    assert_eq!(
        forces_keep_open.clone().closes_menu,
        Some(false),
        "cloning a row that forces the menu to stay open must preserve that override"
    );
}

#[test]
fn cloned_menu_items_keep_their_submenu_rows() {
    let item = MoonMenuItem::new(s("More")).submenu(vec![MoonMenuItem::new(s("Nested 1")), MoonMenuItem::new(s("Nested 2"))]);
    let cloned = item.clone();
    assert!(cloned.has_submenu());
    assert_eq!(cloned.submenu.len(), 2);
    assert_eq!(cloned.submenu.layout(), item.submenu.layout());
    assert_eq!(cloned.submenu.as_slice()[1].label, "Nested 2");
}

#[test]
fn menu_row_builders_set_their_fields() {
    let row = MoonMenuItem::with_key(s("k"), s("Label"))
        .right_label(s("3"))
        .selected(true)
        .checked(true)
        .disabled(true);
    assert_eq!(row.key(), "k");
    assert_eq!(row.label, "Label");
    assert_eq!(row.right_label.as_deref(), Some("3"));
    assert!(row.selected && row.checked && row.disabled);
    assert!(!row.has_submenu());
    let sep = MoonMenuItem::separator();
    assert_eq!(sep.key, "separator");
    assert_eq!(sep.label, "");
    assert!(sep.disabled && !sep.actionable);
    let label = MoonMenuItem::label(s("Section"));
    assert_eq!(label.key, "Section");
    assert!(label.disabled && !label.actionable);
}

#[test]
fn virtualization_starts_at_sixty_four_rows() {
    assert!(!menu_level_is_virtualized(63));
    assert!(menu_level_is_virtualized(64));
    assert!(menu_level_is_virtualized(1000));
}

#[test]
fn width_sample_covers_the_fixed_floor_or_the_viewport() {
    let rows: Vec<MoonMenuItem> = (0..300).map(|i| MoonMenuItem::new(format!("row {i}"))).collect();
    assert_eq!(menu_width_sample(&rows, 15).len(), 128);
    assert_eq!(menu_width_sample(&rows, 200).len(), 200);
    assert_eq!(menu_width_sample(&rows[..40], 15).len(), 40);
    assert_eq!(menu_width_sample(&rows, 15)[127].label, "row 127");
}

#[test]
fn rows_start_in_their_default_tone_and_keep_a_chosen_one_when_copied() {
    assert_eq!(MoonMenuItem::new(s("Open")).tone, MoonTone::Default);
    assert_eq!(MoonMenuItem::label(s("Section")).tone, MoonTone::Default);
    assert_eq!(MoonMenuItem::separator().tone, MoonTone::Muted);
    let row = MoonMenuItem::new(s("Help")).tone(MoonTone::Info);
    assert_eq!(row.tone, MoonTone::Info);
    assert_eq!(row.clone().tone, MoonTone::Info);
    assert_eq!(row.label, "Help");
}
