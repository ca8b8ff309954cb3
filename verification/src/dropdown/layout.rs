//! Which menu levels are virtualized, and which rows size a virtual menu.

use vstd::prelude::*;

use super::model::MoonMenuItem;

verus! {

/// Levels with at least this many rows build only their visible rows.
pub const VIRTUAL_MENU_ITEM_THRESHOLD: usize = 64;

/// Leading rows measured to size a virtual menu, at the least.
pub const MENU_WIDTH_SAMPLE_ROWS: usize = 128;

/// Whether a level of `item_count` rows is virtualized.
pub fn menu_level_is_virtualized(item_count: usize) -> (r: bool)
    ensures
        r == (item_count >= VIRTUAL_MENU_ITEM_THRESHOLD),
{
    item_count >= VIRTUAL_MENU_ITEM_THRESHOLD
}

/// The number of leading rows measured to size a virtual menu: the rows of its first
/// viewport or the fixed sample, whichever is more, but no more than there are.
pub open spec fn width_sample_len(len: int, height_rows: int) -> int {
    let want = if height_rows > MENU_WIDTH_SAMPLE_ROWS { height_rows } else { MENU_WIDTH_SAMPLE_ROWS as int };
    if want < len { want } else { len }
}

/// The leading rows measured to size a virtual menu whose first viewport holds `height_rows`.
pub fn menu_width_sample(items: &[MoonMenuItem], height_rows: usize) -> (r: &[MoonMenuItem])
    ensures
        r@ == items@.take(width_sample_len(items@.len() as int, height_rows as int)),
{
    let want = if height_rows > MENU_WIDTH_SAMPLE_ROWS { height_rows } else { MENU_WIDTH_SAMPLE_ROWS };
    let take = if want < items.len() { want } else { items.len() };
    vstd::slice::slice_subrange(items, 0, take)
}

} // verus!
