//! Dropdown and popup menus: row models, the shared storage of a menu level with its
//! layout fingerprint, the click and close policy of a selection, and when a level is
//! virtualized.

pub mod model;
pub mod selection;
pub mod layout;
