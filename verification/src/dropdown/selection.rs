//! Which menu rows accept clicks, and what a selection does to the menu around it.

use vstd::prelude::*;

use super::model::MoonMenuItemKind;

verus! {

/// Whether a row of this kind and state may dispatch click handlers: enabled items, and
/// enabled labels that opted into actions.
pub fn moon_menu_item_accepts_click(kind: MoonMenuItemKind, disabled: bool, label_actionable: bool) -> (r: bool)
    ensures
        r == (!disabled && match kind {
            MoonMenuItemKind::Item => true,
            MoonMenuItemKind::Label => label_actionable,
            MoonMenuItemKind::Separator => false,
        }),
{
    !disabled && match kind {
        MoonMenuItemKind::Item => true,
        MoonMenuItemKind::Label => label_actionable,
        MoonMenuItemKind::Separator => false,
    }
}

/// The menu-close effects of one selection.
#[derive(Clone, Copy, Debug, PartialEq, Eq, Structural)]
pub struct MoonDropdownSelectPlan {
    /// Whether the menu closes.
    pub close_menu: bool,
    /// Whether the dropdown records the close in the open state it owns.
    pub update_internal_open: bool,
}

/// What one row's click does to the menu: the row's own close override wins over the
/// dropdown's `close_on_select`, and the dropdown records a close itself only when its
/// caller does not own the open state.
pub fn moon_dropdown_select_plan(close_on_select: bool, item_closes_menu: Option<bool>, controlled_open: Option<bool>) -> (r: MoonDropdownSelectPlan)
    ensures
        r.close_menu == (match item_closes_menu {
            Some(c) => c,
            None => close_on_select,
        }),
        r.update_internal_open == (r.close_menu && controlled_open is None),
{
    let close_menu = match item_closes_menu {
        Some(c) => c,
        None => close_on_select,
    };
    MoonDropdownSelectPlan { close_menu, update_internal_open: close_menu && controlled_open.is_none() }
}

} // verus!
