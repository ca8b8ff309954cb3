//! The dock area: a center tree with optional side docks, its edit policy, and the layout
//! operations users and hosts perform on it.
//!
//! Operations record the events they emit in [`DockArea::events`] and the panel lifecycle
//! calls they decide in [`DockArea::panel_calls`]; the host drains both, makes the calls and
//! repaints.

use vstd::prelude::*;

use super::edit::{
    index_named, last_index, lemma_node_at_replaced, lemma_replaced_at_same, lemma_replaced_twice,
    position_named, split_prepared, split_size_set, split_with, tab_inserted, tab_moved,
    tabs_activated, tile_meta_set, DockSplitPlacement,
};
use super::item::{
    any_named, enforced, fallback_agrees, fallback_callable, first_name_excluding, first_named,
    in_names, name_in, node_at, panel_path, panels_of, pushed_first_tabs, replaced_at, str_eq,
    taken_from, lemma_view_items, view_items, add_unique, present_names, smallest_with, has_id, push_all_unique, lemma_first_named_some,
    lemma_first_named_none, with_added, with_name, without_named, inserted_home, has_home_strip,
    lemma_inserted_home_iff_strip, DockItem,
    DockNode, DockPanel,
    TileMeta,
};
use super::lifecycle::{
    added_each, push_added_each, push_removed_each, push_take_calls, push_zoom_calls, removed_each, take_calls,
    zoom_calls, zoomed_panel_in, PanelCall,
};
use super::shared::collect_occurrences_of;

verus! {

/// Where a panel is added.
#[derive(Clone, Copy, Debug, PartialEq, Eq, Structural)]
pub enum DockPlacement {
    Center,
    Left,
    Right,
    Bottom,
}

/// What a dock operation announces to its host.
#[derive(Debug)]
pub enum DockEvent {
    LayoutChanged,
    /// A successful interaction or named activation made this stable panel name active.
    PanelActivated { panel_name: String },
    DetachRequested { panel_name: String },
    /// The close button of a panel was clicked; the host decides what happens to it.
    PanelCloseRequested { panel_name: String },
}

/// One side dock: its tree, its size (a single-precision bit pattern) and whether it is open.
#[derive(Debug)]
pub struct DockSide {
    pub item: DockItem,
    pub size: u32,
    pub open: bool,
}

/// Owns a panel topology, its interaction policy and the events of its layout changes.
#[derive(Debug)]
pub struct DockArea {
    pub id: String,
    pub version: Option<usize>,
    pub center: DockItem,
    pub left: Option<DockSide>,
    pub right: Option<DockSide>,
    pub bottom: Option<DockSide>,
    pub zoomed_panel: Option<String>,
    /// Whether slots offer split drop zones to dragged tabs.
    pub enable_split_drop: bool,
    /// Whether pointer-driven controls may change the topology.
    pub layout_editable: bool,
    /// Whether user detach requests are accepted.
    pub detach_allowed: bool,
    /// Whether user close requests are accepted.
    pub close_allowed: bool,
    /// Stable panel names that lead their tab groups and are not draggable.
    pub pinned_leading_panels: Vec<String>,
    /// Events emitted and not yet handed to the host, oldest first.
    pub events: Vec<DockEvent>,
    /// Panel lifecycle calls (zoom, deactivation, removal, addition) that operations decided
    /// and the host has not made yet, oldest first. Which tab each panel shows as active
    /// is given after every layout change by [`DockArea::activation_plan`].
    pub panel_calls: Vec<PanelCall>,
}

/// Bit pattern of 220.0, the default width of a left dock.
pub const DOCK_LEFT_DEFAULT_SIZE_BITS: u32 = 0x435C_0000;

/// Bit pattern of 280.0, the default width of a right dock.
pub const DOCK_RIGHT_DEFAULT_SIZE_BITS: u32 = 0x438C_0000;

/// Bit pattern of 160.0, the default height of a bottom dock.
pub const DOCK_BOTTOM_DEFAULT_SIZE_BITS: u32 = 0x4320_0000;

/// Bit pattern of 240.0, the width given to a tile without geometry during removal.
pub const DOCK_REMOVED_TILE_W_BITS: u32 = 0x4370_0000;

/// The value of a side dock.
pub open spec fn side_view(s: Option<DockSide>) -> Option<(DockNode, u32, bool)> {
    match s {
        Some(side) => Some((side.item@, side.size, side.open)),
        None => None,
    }
}

/// The tree of a side dock, or an empty node when the side is absent.
pub open spec fn side_node(s: Option<DockSide>) -> DockNode {
    match s {
        Some(side) => side.item@,
        None => DockNode::Empty,
    }
}

/// The names of `names` that are non-empty and not repeated, in order.
pub open spec fn dedup_nonempty(names: Seq<Seq<char>>) -> Seq<Seq<char>>
    decreases names.len(),
{
    if names.len() == 0 {
        Seq::empty()
    } else {
        let prefix = dedup_nonempty(names.drop_last());
        let n = names.last();
        if n.len() == 0 || prefix.contains(n) {
            prefix
        } else {
            prefix.push(n)
        }
    }
}

/// The characters of each string.
pub open spec fn strings_view(s: Seq<String>) -> Seq<Seq<char>> {
    s.map_values(|x: String| x@)
}

/// A side after an operation on its tree that may empty it: an emptied side disappears.
pub open spec fn side_after(s: Option<(DockNode, u32, bool)>, f: spec_fn(DockNode) -> DockNode) -> Option<(DockNode, u32, bool)> {
    match s {
        Some((node, size, open)) => if f(node) is Empty {
            None
        } else {
            Some((f(node), size, open))
        },
        None => None,
    }
}

/// The geometry given to a tile without stored metadata when a panel is removed.
pub open spec fn removed_tile_meta(ix: usize) -> TileMeta {
    TileMeta { x: 0, y: 0, w: DOCK_REMOVED_TILE_W_BITS, h: DOCK_BOTTOM_DEFAULT_SIZE_BITS, z_index: ix }
}

/// A side after removing a name from its tree.
fn side_without<F: Fn(usize) -> TileMeta + Copy>(side: Option<DockSide>, name: &str, missing: F, removed: &mut Vec<DockPanel>) -> (r: Option<DockSide>)
    requires
        fallback_callable(missing),
    ensures
        forall|g: spec_fn(usize) -> TileMeta| #![trigger fallback_agrees(missing, g)] fallback_agrees(missing, g) ==> side_view(r) == side_after(side_view(side), |n: DockNode| without_named(n, name@, g)),
        final(removed)@ == old(removed)@ + with_name(panels_of(side_node(side)), name@),
{
    match side {
        None => {
            assert(old(removed)@ + with_name(Seq::<DockPanel>::empty(), name@) =~= old(removed)@) by {
                reveal_with_fuel(Seq::filter, 1);
            }
            None
        },
        Some(s) => {
            let (item, mut occ) = s.item.extract_panels_named(name, missing);
            removed.append(&mut occ);
            if item.is_empty() {
                None
            } else {
                Some(DockSide { item, size: s.size, open: s.open })
            }
        },
    }
}

/// Whether two optional names are equal.
fn opt_name_is(a: &Option<String>, b: &str) -> (r: bool)
    ensures
        r == (match a { Some(n) => n@ == b@, None => false }),
{
    match a {
        Some(n) => str_eq(n.as_str(), b),
        None => false,
    }
}

impl DockArea {
    /// Create an empty, editable dock with the given persistence version.
    pub fn new(id: String, version: Option<usize>) -> (r: DockArea)
        ensures
            r.id == id,
            r.version == version,
            r.center@ is Empty,
            r.left is None,
            r.right is None,
            r.bottom is None,
            r.zoomed_panel is None,
            r.enable_split_drop,
            r.layout_editable,
            r.detach_allowed,
            r.close_allowed,
            r.pinned_leading_panels@.len() == 0,
            r.events@.len() == 0,
            r.panel_calls@.len() == 0,
    {
        DockArea {
            id,
            version,
            center: DockItem::Empty,
            left: None,
            right: None,
            bottom: None,
            zoomed_panel: None,
            enable_split_drop: true,
            layout_editable: true,
            detach_allowed: true,
            close_allowed: true,
            pinned_leading_panels: Vec::new(),
            events: Vec::new(),
            panel_calls: Vec::new(),
        }
    }

    /// Offer or withhold split drop zones.
    pub fn enable_split_drop(self, enable: bool) -> (r: DockArea)
        ensures
            r == (DockArea { enable_split_drop: enable, ..self }),
    {
        DockArea { enable_split_drop: enable, ..self }
    }

    /// Enable or suppress pointer-driven structural edits; activation stays available.
    pub fn set_layout_editable(&mut self, editable: bool)
        ensures
            *final(self) == (DockArea { layout_editable: editable, ..*old(self) }),
    {
        self.layout_editable = editable;
    }

    /// Accept or reject user detach requests.
    pub fn set_detach_allowed(&mut self, allowed: bool)
        ensures
            *final(self) == (DockArea { detach_allowed: allowed, ..*old(self) }),
    {
        self.detach_allowed = allowed;
    }

    /// Accept or reject user close requests.
    pub fn set_close_allowed(&mut self, allowed: bool)
        ensures
            *final(self) == (DockArea { close_allowed: allowed, ..*old(self) }),
    {
        self.close_allowed = allowed;
    }

    /// Request a detach for a user gesture when editing and detaching are both allowed.
    pub fn request_detach_from_user(&mut self, panel_name: String)
        ensures
            final(self).events@ == if old(self).layout_editable && old(self).detach_allowed {
                old(self).events@.push(DockEvent::DetachRequested { panel_name })
            } else {
                old(self).events@
            },
            *final(self) == (DockArea { events: final(self).events, ..*old(self) }),
    {
        if self.layout_editable && self.detach_allowed {
            self.events.push(DockEvent::DetachRequested { panel_name });
        }
    }

    /// Request a close for a user gesture when editing and closing are both allowed.
    pub fn request_close_from_user(&mut self, panel_name: String)
        ensures
            final(self).events@ == if old(self).layout_editable && old(self).close_allowed {
                old(self).events@.push(DockEvent::PanelCloseRequested { panel_name })
            } else {
                old(self).events@
            },
            *final(self) == (DockArea { events: final(self).events, ..*old(self) }),
    {
        if self.layout_editable && self.close_allowed {
            self.events.push(DockEvent::PanelCloseRequested { panel_name });
        }
    }

    /// Replace the center tree and announce one layout change.
    ///
    /// Each panel occurrence of the new tree, in tree order, is told that it joined the dock;
    /// the previous center's panels are not told anything.
    pub fn set_center(&mut self, item: DockItem)
        ensures
            *final(self) == (DockArea { center: item, events: final(self).events, panel_calls: final(self).panel_calls, ..*old(self) }),
            final(self).events@ == old(self).events@.push(DockEvent::LayoutChanged),
            final(self).panel_calls@ == old(self).panel_calls@ + added_each(panels_of(item@)),
    {
        let occ = collect_occurrences_of(&item);
        push_added_each(&mut self.panel_calls, &occ);
        self.center = item;
        self.events.push(DockEvent::LayoutChanged);
    }

    /// Add a panel to a root: to the center tree, or to a side dock, which is opened and
    /// given `size` (or its default size) and created when absent. The panel is told that it
    /// joined the dock.
    pub fn add_panel(&mut self, panel: DockPanel, placement: DockPlacement, size: Option<u32>)
        ensures
            final(self).panel_calls@ == old(self).panel_calls@.push(PanelCall::AddedTo { panel }),
            final(self).events@ == old(self).events@.push(DockEvent::LayoutChanged),
            match placement {
                DockPlacement::Center => final(self).center@ == with_added(old(self).center@, panel)
                    && side_view(final(self).left) == side_view(old(self).left)
                    && side_view(final(self).right) == side_view(old(self).right)
                    && side_view(final(self).bottom) == side_view(old(self).bottom),
                DockPlacement::Left => side_view(final(self).left) == Some((
                    match old(self).left { Some(s) => with_added(s.item@, panel), None => DockNode::Panel(panel) },
                    match size { Some(b) => b, None => DOCK_LEFT_DEFAULT_SIZE_BITS },
                    true,
                )) && final(self).center@ == old(self).center@
                    && side_view(final(self).right) == side_view(old(self).right)
                    && side_view(final(self).bottom) == side_view(old(self).bottom),
                DockPlacement::Right => side_view(final(self).right) == Some((
                    match old(self).right { Some(s) => with_added(s.item@, panel), None => DockNode::Panel(panel) },
                    match size { Some(b) => b, None => DOCK_RIGHT_DEFAULT_SIZE_BITS },
                    true,
                )) && final(self).center@ == old(self).center@
                    && side_view(final(self).left) == side_view(old(self).left)
                    && side_view(final(self).bottom) == side_view(old(self).bottom),
                DockPlacement::Bottom => side_view(final(self).bottom) == Some((
                    match old(self).bottom { Some(s) => with_added(s.item@, panel), None => DockNode::Panel(panel) },
                    match size { Some(b) => b, None => DOCK_BOTTOM_DEFAULT_SIZE_BITS },
                    true,
                )) && final(self).center@ == old(self).center@
                    && side_view(final(self).left) == side_view(old(self).left)
                    && side_view(final(self).right) == side_view(old(self).right),
            },
            final(self).zoomed_panel == old(self).zoomed_panel,
            final(self).pinned_leading_panels == old(self).pinned_leading_panels,
    {
        self.panel_calls.push(PanelCall::AddedTo { panel: panel.share() });
        match placement {
            DockPlacement::Center => {
                let mut cur = DockItem::Empty;
                std::mem::swap(&mut cur, &mut self.center);
                self.center = cur.with_panel_added(panel);
            },
            DockPlacement::Left => {
                let item = match self.left.take() {
                    Some(s) => s.item.with_panel_added(panel),
                    None => DockItem::Panel(panel),
                };
                let size = match size { Some(b) => b, None => DOCK_LEFT_DEFAULT_SIZE_BITS };
                self.left = Some(DockSide { item, size, open: true });
            },
            DockPlacement::Right => {
                let item = match self.right.take() {
                    Some(s) => s.item.with_panel_added(panel),
                    None => DockItem::Panel(panel),
                };
                let size = match size { Some(b) => b, None => DOCK_RIGHT_DEFAULT_SIZE_BITS };
                self.right = Some(DockSide { item, size, open: true });
            },
            DockPlacement::Bottom => {
                let item = match self.bottom.take() {
                    Some(s) => s.item.with_panel_added(panel),
                    None => DockItem::Panel(panel),
                };
                let size = match size { Some(b) => b, None => DOCK_BOTTOM_DEFAULT_SIZE_BITS };
                self.bottom = Some(DockSide { item, size, open: true });
            },
        }
        self.events.push(DockEvent::LayoutChanged);
    }

    /// Restore a panel into its home tab strip in the center tree (see
    /// [`DockItem::insert_into_named_tabs`]); announces a layout change on success.
    ///
    /// Returns false, changing nothing and announcing nothing, when no tab strip of the
    /// center holds a sibling; the caller may then fall back to adding the panel. On success
    /// the panel is told that it joined the dock.
    pub fn insert_panel_into_home_tabs(&mut self, panel: &DockPanel, ix: usize, sibling_names: &Vec<String>) -> (r: bool)
        ensures
            final(self).panel_calls@ == if r { old(self).panel_calls@.push(PanelCall::AddedTo { panel: *panel }) } else { old(self).panel_calls@ },
            (final(self).center@, r) == inserted_home(old(self).center@, *panel, ix as nat, sibling_names@),
            r == has_home_strip(old(self).center@, sibling_names@),
            final(self).events@ == if r { old(self).events@.push(DockEvent::LayoutChanged) } else { old(self).events@ },
            side_view(final(self).left) == side_view(old(self).left),
            side_view(final(self).right) == side_view(old(self).right),
            side_view(final(self).bottom) == side_view(old(self).bottom),
            final(self).zoomed_panel == old(self).zoomed_panel,
    {
        proof { lemma_inserted_home_iff_strip(self.center@, *panel, ix as nat, sibling_names@); }
        let ok = self.center.insert_into_named_tabs(panel, ix, sibling_names);
        if ok {
            self.panel_calls.push(PanelCall::AddedTo { panel: panel.share() });
            self.events.push(DockEvent::LayoutChanged);
        }
        ok
    }

    /// Remove every occurrence of a stable panel name from every root.
    ///
    /// Emptied side docks disappear, a matching zoom is cleared, and one layout change is
    /// announced. Returns the removed occurrences in center, left, right, bottom order, each
    /// of which is told, in that order, that it was removed (see [`DockArea::panel_calls`]);
    /// none when the name is absent, which changes no panel.
    pub fn remove_panel_by_name(&mut self, panel_name: &str) -> (r: Vec<DockPanel>)
        ensures
            final(self).panel_calls@ == old(self).panel_calls@ + removed_each(r@),
            r@ == all_occurrences(layout_of(*old(self)), panel_name@),
            layout_of(*final(self)) == layout_without(layout_of(*old(self)), panel_name@, |ix: usize| removed_tile_meta(ix)),
            r@.len() > 0 ==> final(self).events@ == old(self).events@.push(DockEvent::LayoutChanged),
            r@.len() == 0 ==> final(self).events == old(self).events,
            final(self).zoomed_panel == (if r@.len() > 0 && (match old(self).zoomed_panel { Some(z) => z@ == panel_name@, None => false }) {
                None
            } else {
                old(self).zoomed_panel
            }),
            final(self).id == old(self).id,
            final(self).version == old(self).version,
            final(self).pinned_leading_panels == old(self).pinned_leading_panels,
            final(self).layout_editable == old(self).layout_editable,
    {
        let missing = |ix: usize| -> (m: TileMeta)
            ensures
                m == removed_tile_meta(ix),
        {
            TileMeta { x: 0, y: 0, w: DOCK_REMOVED_TILE_W_BITS, h: DOCK_BOTTOM_DEFAULT_SIZE_BITS, z_index: ix }
        };
        proof {
            assert(fallback_callable(missing));
            assert(fallback_agrees(missing, |ix: usize| removed_tile_meta(ix)));
        }
        let removed = self.extract_from_all_roots(panel_name, missing);
        push_removed_each(&mut self.panel_calls, &removed);
        if removed.len() > 0 {
            if opt_name_is(&self.zoomed_panel, panel_name) {
                self.zoomed_panel = None;
            }
            self.events.push(DockEvent::LayoutChanged);
        }
        removed
    }

    /// Open or close a side dock; the center cannot be closed. Returns whether it changed,
    /// announcing a layout change when it did.
    pub fn set_dock_open(&mut self, placement: DockPlacement, open: bool) -> (r: bool)
        ensures
            final(self).panel_calls == old(self).panel_calls,
            r == (match placement {
                DockPlacement::Center => false,
                DockPlacement::Left => old(self).left is Some && old(self).left->0.open != open,
                DockPlacement::Right => old(self).right is Some && old(self).right->0.open != open,
                DockPlacement::Bottom => old(self).bottom is Some && old(self).bottom->0.open != open,
            }),
            final(self).events@ == if r { old(self).events@.push(DockEvent::LayoutChanged) } else { old(self).events@ },
            final(self).center == old(self).center,
            final(self).left == (if r && placement == DockPlacement::Left { Some(DockSide { open, ..old(self).left->0 }) } else { old(self).left }),
            final(self).right == (if r && placement == DockPlacement::Right { Some(DockSide { open, ..old(self).right->0 }) } else { old(self).right }),
            final(self).bottom == (if r && placement == DockPlacement::Bottom { Some(DockSide { open, ..old(self).bottom->0 }) } else { old(self).bottom }),
            final(self).zoomed_panel == old(self).zoomed_panel,
    {
        let slot = match placement {
            DockPlacement::Center => return false,
            DockPlacement::Left => &mut self.left,
            DockPlacement::Right => &mut self.right,
            DockPlacement::Bottom => &mut self.bottom,
        };
        let changed = match slot {
            Some(side) => {
                if side.open == open {
                    false
                } else {
                    side.open = open;
                    true
                }
            },
            None => false,
        };
        if changed {
            self.events.push(DockEvent::LayoutChanged);
        }
        changed
    }

    /// Flip a side dock's open state; `false` for the center or an absent side.
    pub fn toggle_dock(&mut self, placement: DockPlacement) -> (r: bool)
        ensures
            final(self).panel_calls == old(self).panel_calls,
            r == (match placement {
                DockPlacement::Center => false,
                DockPlacement::Left => old(self).left is Some,
                DockPlacement::Right => old(self).right is Some,
                DockPlacement::Bottom => old(self).bottom is Some,
            }),
            final(self).events@ == if r { old(self).events@.push(DockEvent::LayoutChanged) } else { old(self).events@ },
            final(self).center == old(self).center,
            final(self).left == (if r && placement == DockPlacement::Left { Some(DockSide { open: !old(self).left->0.open, ..old(self).left->0 }) } else { old(self).left }),
            final(self).right == (if r && placement == DockPlacement::Right { Some(DockSide { open: !old(self).right->0.open, ..old(self).right->0 }) } else { old(self).right }),
            final(self).bottom == (if r && placement == DockPlacement::Bottom { Some(DockSide { open: !old(self).bottom->0.open, ..old(self).bottom->0 }) } else { old(self).bottom }),
            final(self).zoomed_panel == old(self).zoomed_panel,
    {
        let open = match placement {
            DockPlacement::Center => return false,
            DockPlacement::Left => match &self.left { Some(s) => !s.open, None => return false },
            DockPlacement::Right => match &self.right { Some(s) => !s.open, None => return false },
            DockPlacement::Bottom => match &self.bottom { Some(s) => !s.open, None => return false },
        };
        self.set_dock_open(placement, open)
    }

    /// Toggle one panel as the sole zoomed surface: zooming the zoomed panel again clears
    /// the zoom. Announces one layout change. The panel zoomed before is told it is no longer
    /// zoomed, then the panel zoomed now is told it is, where a panel carries those names.
    pub fn toggle_zoom_panel(&mut self, panel_name: String)
        ensures
            final(self).panel_calls@ == old(self).panel_calls@ + zoom_calls(
                zoomed_panel_in(layout_of(*old(self)), old(self).zoomed_panel),
                zoomed_panel_in(layout_of(*old(self)), final(self).zoomed_panel),
            ),
            final(self).zoomed_panel == (match old(self).zoomed_panel {
                Some(z) => if z@ == panel_name@ { None } else { Some(panel_name) },
                None => Some(panel_name),
            }),
            final(self).events@ == old(self).events@.push(DockEvent::LayoutChanged),
            final(self).center == old(self).center,
            final(self).left == old(self).left,
            final(self).right == old(self).right,
            final(self).bottom == old(self).bottom,
    {
        let before = self.zoomed_live_panel();
        let same = opt_name_is(&self.zoomed_panel, panel_name.as_str());
        self.zoomed_panel = if same { None } else { Some(panel_name) };
        let after = self.zoomed_live_panel();
        push_zoom_calls(&mut self.panel_calls, &before, &after);
        self.events.push(DockEvent::LayoutChanged);
    }

    /// Leave the zoomed surface; announces a layout change only when something was zoomed,
    /// and tells the panel carrying the zoomed name, if any, that it is no longer zoomed.
    pub fn clear_zoom(&mut self)
        ensures
            final(self).panel_calls@ == old(self).panel_calls@ + zoom_calls(
                zoomed_panel_in(layout_of(*old(self)), old(self).zoomed_panel),
                None,
            ),
            final(self).zoomed_panel is None,
            final(self).events@ == if old(self).zoomed_panel is Some {
                old(self).events@.push(DockEvent::LayoutChanged)
            } else {
                old(self).events@
            },
            final(self).center == old(self).center,
            final(self).left == old(self).left,
            final(self).right == old(self).right,
            final(self).bottom == old(self).bottom,
    {
        let before = self.zoomed_live_panel();
        push_zoom_calls(&mut self.panel_calls, &before, &None);
        if self.zoomed_panel.is_some() {
            self.zoomed_panel = None;
            self.events.push(DockEvent::LayoutChanged);
        }
    }
}


/// A root of the dock area: the center tree or one side dock.
#[derive(Clone, Copy, Debug, PartialEq, Eq, Structural)]
pub enum DockRoot {
    Center,
    Left,
    Right,
    Bottom,
}

/// How a named panel sits in the node that holds it.
#[derive(Clone, Copy, Debug, PartialEq, Eq, Structural)]
pub enum DockPanelSlot {
    Panel,
    Tab(usize),
    Tile(usize),
}

/// Where a named panel is: its root, the split-only path to its node, and its slot there.
#[derive(Debug)]
pub struct DockPanelLocation {
    pub root: DockRoot,
    pub path: Vec<usize>,
    pub slot: DockPanelSlot,
}

/// The tree of a root, if the root is present.
pub open spec fn root_node(a: DockArea, root: DockRoot) -> Option<DockNode> {
    match root {
        DockRoot::Center => Some(a.center@),
        DockRoot::Left => match a.left { Some(s) => Some(s.item@), None => None },
        DockRoot::Right => match a.right { Some(s) => Some(s.item@), None => None },
        DockRoot::Bottom => match a.bottom { Some(s) => Some(s.item@), None => None },
    }
}

/// The node at `path` in a root.
pub open spec fn node_in(a: DockArea, root: DockRoot, path: Seq<usize>) -> Option<DockNode> {
    match root_node(a, root) {
        Some(n) => node_at(n, path),
        None => None,
    }
}

/// The tree of a root with the node at `path` replaced.
pub open spec fn root_replaced(a: DockArea, root: DockRoot, path: Seq<usize>, new: DockNode) -> Option<DockNode> {
    match root_node(a, root) {
        Some(n) => Some(replaced_at(n, path, new)),
        None => None,
    }
}

/// Size and open state of a side, if present.
pub open spec fn side_frame(s: Option<DockSide>) -> Option<(u32, bool)> {
    match s {
        Some(side) => Some((side.size, side.open)),
        None => None,
    }
}

/// Identity, zoom, edit policy and pinned names are the same in both areas.
pub open spec fn same_prefs(a: DockArea, b: DockArea) -> bool {
    &&& a.id == b.id
    &&& a.version == b.version
    &&& a.zoomed_panel == b.zoomed_panel
    &&& a.enable_split_drop == b.enable_split_drop
    &&& a.layout_editable == b.layout_editable
    &&& a.detach_allowed == b.detach_allowed
    &&& a.close_allowed == b.close_allowed
    &&& a.pinned_leading_panels == b.pinned_leading_panels
}

/// Everything but the trees of the roots and the pending events is the same in both areas.
pub open spec fn same_settings(a: DockArea, b: DockArea) -> bool {
    &&& a.id == b.id
    &&& a.version == b.version
    &&& side_frame(a.left) == side_frame(b.left)
    &&& side_frame(a.right) == side_frame(b.right)
    &&& side_frame(a.bottom) == side_frame(b.bottom)
    &&& a.zoomed_panel == b.zoomed_panel
    &&& a.enable_split_drop == b.enable_split_drop
    &&& a.layout_editable == b.layout_editable
    &&& a.detach_allowed == b.detach_allowed
    &&& a.close_allowed == b.close_allowed
    &&& a.pinned_leading_panels == b.pinned_leading_panels
}

/// Everything but the trees of the roots is the same in both areas.
pub open spec fn same_frame(a: DockArea, b: DockArea) -> bool {
    same_settings(a, b) && a.events == b.events
}

/// Both areas hold the same trees and the same everything else.
pub open spec fn same_area(a: DockArea, b: DockArea) -> bool {
    same_frame(a, b) && forall|r: DockRoot| #[trigger] root_node(a, r) == root_node(b, r)
}

/// Every root other than `root` has the same tree in both areas.
pub open spec fn others_same(a: DockArea, b: DockArea, root: DockRoot) -> bool {
    forall|r: DockRoot| r != root ==> #[trigger] root_node(a, r) == root_node(b, r)
}

/// The slot a panel named `n` has in the node holding it.
pub open spec fn slot_in(node: DockNode, n: Seq<char>) -> DockPanelSlot {
    match node {
        DockNode::Tabs { items, .. } => DockPanelSlot::Tab(index_named(items, n) as usize),
        DockNode::Tiles { items, .. } => DockPanelSlot::Tile(index_named(items, n) as usize),
        _ => DockPanelSlot::Panel,
    }
}

/// Where the first panel named `n` is, roots searched center, left, right, bottom.
pub open spec fn location_of(a: DockArea, n: Seq<char>) -> Option<(DockRoot, Seq<usize>, DockPanelSlot)> {
    let found = |r: DockRoot| match root_node(a, r) {
        Some(t) => panel_path(t, n) is Some,
        None => false,
    };
    let at = |r: DockRoot| {
        let t = root_node(a, r)->0;
        let p = panel_path(t, n)->0;
        (r, p, match node_at(t, p) { Some(m) => slot_in(m, n), None => DockPanelSlot::Panel })
    };
    if found(DockRoot::Center) {
        Some(at(DockRoot::Center))
    } else if found(DockRoot::Left) {
        Some(at(DockRoot::Left))
    } else if found(DockRoot::Right) {
        Some(at(DockRoot::Right))
    } else if found(DockRoot::Bottom) {
        Some(at(DockRoot::Bottom))
    } else {
        None
    }
}

impl DockArea {
    /// The tree of a root, if present.
    pub fn root_item(&self, root: DockRoot) -> (r: Option<&DockItem>)
        ensures
            match r {
                Some(item) => root_node(*self, root) == Some(item@),
                None => root_node(*self, root) is None,
            },
    {
        match root {
            DockRoot::Center => Some(&self.center),
            DockRoot::Left => match &self.left { Some(s) => Some(&s.item), None => None },
            DockRoot::Right => match &self.right { Some(s) => Some(&s.item), None => None },
            DockRoot::Bottom => match &self.bottom { Some(s) => Some(&s.item), None => None },
        }
    }

    /// Replace the node at `path` in a root, returning the node that stood there; `Err`
    /// with the area unchanged when the root is absent or the path leads nowhere.
    fn replace_in_root(&mut self, root: DockRoot, path: &Vec<usize>, new: DockItem) -> (r: Result<DockItem, DockItem>)
        ensures
            final(self).panel_calls == old(self).panel_calls,
            same_frame(*old(self), *final(self)),
            others_same(*old(self), *final(self), root),
            match r {
                Ok(t) => node_in(*old(self), root, path@) == Some(t@)
                    && root_node(*final(self), root) == root_replaced(*old(self), root, path@, new@),
                Err(back) => node_in(*old(self), root, path@) is None
                    && root_node(*final(self), root) == root_node(*old(self), root) && back == new,
            },
    {
        match root {
            DockRoot::Center => self.center.replace_at_path(path, new),
            DockRoot::Left => match self.left.take() {
                Some(mut s) => {
                    let r = s.item.replace_at_path(path, new);
                    self.left = Some(s);
                    r
                },
                None => Err(new),
            },
            DockRoot::Right => match self.right.take() {
                Some(mut s) => {
                    let r = s.item.replace_at_path(path, new);
                    self.right = Some(s);
                    r
                },
                None => Err(new),
            },
            DockRoot::Bottom => match self.bottom.take() {
                Some(mut s) => {
                    let r = s.item.replace_at_path(path, new);
                    self.bottom = Some(s);
                    r
                },
                None => Err(new),
            },
        }
    }

    /// Apply a node edit at `path` in a root: take the node out, and put back what the
    /// edit made of it.
    fn put_back(&mut self, root: DockRoot, path: &Vec<usize>, new: DockItem)
        requires
            node_in(*old(self), root, path@) is Some,
        ensures
            final(self).panel_calls == old(self).panel_calls,
            same_frame(*old(self), *final(self)),
            others_same(*old(self), *final(self), root),
            root_node(*final(self), root) == root_replaced(*old(self), root, path@, new@),
    {
        let _ = self.replace_in_root(root, path, new);
    }

    /// Set the active tab of the tab group at `path` in a root, clamped into the group.
    ///
    /// Returns whether the active tab changed; a missing node or a node that is not a tab
    /// group changes nothing.
    pub fn set_tabs_active_index(&mut self, root: DockRoot, path: &Vec<usize>, active_ix: usize) -> (r: bool)
        ensures
            final(self).panel_calls == old(self).panel_calls,
            same_frame(*old(self), *final(self)),
            others_same(*old(self), *final(self), root),
            match node_in(*old(self), root, path@) {
                Some(n) => r == tabs_activated(n, active_ix as nat).1
                    && root_node(*final(self), root) == root_replaced(*old(self), root, path@, tabs_activated(n, active_ix as nat).0),
                None => !r && root_node(*final(self), root) == root_node(*old(self), root),
            },
    {
        let ghost a0 = *self;
        match self.replace_in_root(root, path, DockItem::Empty) {
            Ok(t) => {
                let ghost a1 = *self;
                let (next, changed) = t.with_tab_activated(active_ix);
                proof {
                    let n0 = root_node(a0, root)->0;
                    lemma_node_at_replaced(n0, path@, DockNode::Empty);
                    lemma_replaced_twice(n0, path@, DockNode::Empty, next@);
                }
                self.put_back(root, path, next);
                proof {
                    assert forall|r2: DockRoot| r2 != root implies #[trigger] root_node(*self, r2) == root_node(a0, r2) by {
                        assert(root_node(a1, r2) == root_node(a0, r2));
                    }
                }
                changed
            },
            Err(_) => false,
        }
    }

    /// Set the geometry of the tile at `ix` in the tile group at `path` under `root`.
    ///
    /// Returns whether the stored geometry changed (see [`tile_meta_set`]); a missing node or
    /// a node that is not a tile group changes nothing. Nothing is announced.
    pub fn update_tile_meta(&mut self, root: DockRoot, path: &Vec<usize>, ix: usize, meta: TileMeta) -> (r: bool)
        requires
            ix < usize::MAX,
        ensures
            final(self).panel_calls == old(self).panel_calls,
            same_frame(*old(self), *final(self)),
            others_same(*old(self), *final(self), root),
            final(self).events == old(self).events,
            match node_in(*old(self), root, path@) {
                Some(n) => r == tile_meta_set(n, ix as nat, meta).1
                    && root_node(*final(self), root) == root_replaced(*old(self), root, path@, tile_meta_set(n, ix as nat, meta).0),
                None => !r && root_node(*final(self), root) == root_node(*old(self), root),
            },
    {
        let ghost a0 = *self;
        match self.replace_in_root(root, path, DockItem::Empty) {
            Ok(t) => {
                let ghost a1 = *self;
                let (next, changed) = t.with_tile_meta(ix, meta);
                proof {
                    let n0 = root_node(a0, root)->0;
                    lemma_node_at_replaced(n0, path@, DockNode::Empty);
                    lemma_replaced_twice(n0, path@, DockNode::Empty, next@);
                }
                self.put_back(root, path, next);
                proof {
                    assert forall|r2: DockRoot| r2 != root implies #[trigger] root_node(*self, r2) == root_node(a0, r2) by {
                        assert(root_node(a1, r2) == root_node(a0, r2));
                    }
                }
                changed
            },
            Err(_) => false,
        }
    }

    /// Apply the geometry a user's tile drag arrived at, while layout editing is enabled.
    ///
    /// Returns whether the stored geometry changed, announcing one layout change when it did.
    pub fn apply_tile_drag(&mut self, root: DockRoot, path: &Vec<usize>, ix: usize, meta: TileMeta) -> (r: bool)
        requires
            ix < usize::MAX,
        ensures
            final(self).panel_calls == old(self).panel_calls,
            !old(self).layout_editable ==> !r && *final(self) == *old(self),
            same_settings(*old(self), *final(self)),
            others_same(*old(self), *final(self), root),
            old(self).layout_editable ==> match node_in(*old(self), root, path@) {
                Some(n) => r == tile_meta_set(n, ix as nat, meta).1
                    && root_node(*final(self), root) == root_replaced(*old(self), root, path@, tile_meta_set(n, ix as nat, meta).0),
                None => !r && root_node(*final(self), root) == root_node(*old(self), root),
            },
            final(self).events@ == (if r { old(self).events@.push(DockEvent::LayoutChanged) } else { old(self).events@ }),
    {
        if !self.layout_editable {
            return false;
        }
        let changed = self.update_tile_meta(root, path, ix, meta);
        if changed {
            self.events.push(DockEvent::LayoutChanged);
        }
        changed
    }

    /// Prepare the split at `path` under `root` for a drag of the handle before child
    /// `after_ix` (see [`split_prepared`]): its sizes are padded to one slot per child, and
    /// the axis, the slot the drag sets and its current size are returned. Nothing is
    /// announced.
    pub fn prepare_split_resize(&mut self, root: DockRoot, path: &Vec<usize>, after_ix: usize) -> (r: Option<(bool, usize, Option<u32>)>)
        ensures
            final(self).panel_calls == old(self).panel_calls,
            same_frame(*old(self), *final(self)),
            others_same(*old(self), *final(self), root),
            match node_in(*old(self), root, path@) {
                Some(n) => root_node(*final(self), root) == root_replaced(*old(self), root, path@, split_prepared(n, after_ix as nat).0)
                    && match split_prepared(n, after_ix as nat).1 {
                        Some(t) => r == Some((t.0, t.1 as usize, t.2)),
                        None => r is None,
                    },
                None => r is None && root_node(*final(self), root) == root_node(*old(self), root),
            },
    {
        let ghost a0 = *self;
        match self.replace_in_root(root, path, DockItem::Empty) {
            Ok(t) => {
                let ghost a1 = *self;
                let (next, prepared) = t.with_split_prepared(after_ix);
                proof {
                    let n0 = root_node(a0, root)->0;
                    lemma_node_at_replaced(n0, path@, DockNode::Empty);
                    lemma_replaced_twice(n0, path@, DockNode::Empty, next@);
                }
                self.put_back(root, path, next);
                proof {
                    assert forall|r2: DockRoot| r2 != root implies #[trigger] root_node(*self, r2) == root_node(a0, r2) by {
                        assert(root_node(a1, r2) == root_node(a0, r2));
                    }
                }
                prepared
            },
            Err(_) => None,
        }
    }

    /// Store the size a user's drag of a split handle arrived at in slot `ix` of the split at
    /// `path` under `root`, while layout editing is enabled (see [`split_size_set`]).
    ///
    /// Returns whether the size was stored, announcing one layout change when it was.
    pub fn apply_split_resize(&mut self, root: DockRoot, path: &Vec<usize>, ix: usize, size: u32) -> (r: bool)
        ensures
            final(self).panel_calls == old(self).panel_calls,
            !old(self).layout_editable ==> !r && *final(self) == *old(self),
            same_settings(*old(self), *final(self)),
            others_same(*old(self), *final(self), root),
            old(self).layout_editable ==> match node_in(*old(self), root, path@) {
                Some(n) => r == split_size_set(n, ix as nat, size).1
                    && root_node(*final(self), root) == root_replaced(*old(self), root, path@, split_size_set(n, ix as nat, size).0),
                None => !r && root_node(*final(self), root) == root_node(*old(self), root),
            },
            final(self).events@ == (if r { old(self).events@.push(DockEvent::LayoutChanged) } else { old(self).events@ }),
    {
        if !self.layout_editable {
            return false;
        }
        let ghost a0 = *self;
        let changed = match self.replace_in_root(root, path, DockItem::Empty) {
            Ok(t) => {
                let ghost a1 = *self;
                let (next, set) = t.with_split_size(ix, size);
                proof {
                    let n0 = root_node(a0, root)->0;
                    lemma_node_at_replaced(n0, path@, DockNode::Empty);
                    lemma_replaced_twice(n0, path@, DockNode::Empty, next@);
                }
                self.put_back(root, path, next);
                proof {
                    assert forall|r2: DockRoot| r2 != root implies #[trigger] root_node(*self, r2) == root_node(a0, r2) by {
                        assert(root_node(a1, r2) == root_node(a0, r2));
                    }
                }
                set
            },
            Err(_) => false,
        };
        if changed {
            self.events.push(DockEvent::LayoutChanged);
        }
        changed
    }

    /// Store the size a user's drag of a side dock's outer edge arrived at, while layout
    /// editing is enabled.
    ///
    /// Returns whether the side exists and the size was stored, announcing one layout change
    /// when it was. The center has no outer edge.
    pub fn apply_side_resize(&mut self, root: DockRoot, size: u32) -> (r: bool)
        ensures
            final(self).panel_calls == old(self).panel_calls,
            r == (old(self).layout_editable && match root {
                DockRoot::Center => false,
                DockRoot::Left => old(self).left is Some,
                DockRoot::Right => old(self).right is Some,
                DockRoot::Bottom => old(self).bottom is Some,
            }),
            !r ==> *final(self) == *old(self),
            r ==> final(self).events@ == old(self).events@.push(DockEvent::LayoutChanged),
            final(self).center == old(self).center,
            final(self).left == (if r && root == DockRoot::Left { Some(DockSide { size, ..old(self).left->0 }) } else { old(self).left }),
            final(self).right == (if r && root == DockRoot::Right { Some(DockSide { size, ..old(self).right->0 }) } else { old(self).right }),
            final(self).bottom == (if r && root == DockRoot::Bottom { Some(DockSide { size, ..old(self).bottom->0 }) } else { old(self).bottom }),
            same_prefs(*old(self), *final(self)),
    {
        if !self.layout_editable {
            return false;
        }
        let slot = match root {
            DockRoot::Center => return false,
            DockRoot::Left => &mut self.left,
            DockRoot::Right => &mut self.right,
            DockRoot::Bottom => &mut self.bottom,
        };
        let set = match slot {
            Some(side) => {
                side.size = size;
                true
            },
            None => false,
        };
        if set {
            self.events.push(DockEvent::LayoutChanged);
        }
        set
    }

    /// Open a side root without announcing it; `false` for the center, an absent side, or
    /// a side already open.
    pub fn open_root(&mut self, root: DockRoot) -> (r: bool)
        ensures
            final(self).panel_calls == old(self).panel_calls,
            r == (match root {
                DockRoot::Center => false,
                DockRoot::Left => old(self).left is Some && !old(self).left->0.open,
                DockRoot::Right => old(self).right is Some && !old(self).right->0.open,
                DockRoot::Bottom => old(self).bottom is Some && !old(self).bottom->0.open,
            }),
            final(self).center == old(self).center,
            final(self).left == (if r && root == DockRoot::Left { Some(DockSide { open: true, ..old(self).left->0 }) } else { old(self).left }),
            final(self).right == (if r && root == DockRoot::Right { Some(DockSide { open: true, ..old(self).right->0 }) } else { old(self).right }),
            final(self).bottom == (if r && root == DockRoot::Bottom { Some(DockSide { open: true, ..old(self).bottom->0 }) } else { old(self).bottom }),
            final(self).events == old(self).events,
            final(self).zoomed_panel == old(self).zoomed_panel,
            final(self).pinned_leading_panels == old(self).pinned_leading_panels,
    {
        let slot = match root {
            DockRoot::Center => return false,
            DockRoot::Left => &mut self.left,
            DockRoot::Right => &mut self.right,
            DockRoot::Bottom => &mut self.bottom,
        };
        match slot {
            Some(side) => {
                if side.open {
                    false
                } else {
                    side.open = true;
                    true
                }
            },
            None => false,
        }
    }
}


/// What an event announces, as plain values.
pub enum EventView {
    LayoutChanged,
    PanelActivated(Seq<char>),
    DetachRequested(Seq<char>),
    PanelCloseRequested(Seq<char>),
}

/// The plain value of an event.
pub open spec fn event_view(e: DockEvent) -> EventView {
    match e {
        DockEvent::LayoutChanged => EventView::LayoutChanged,
        DockEvent::PanelActivated { panel_name } => EventView::PanelActivated(panel_name@),
        DockEvent::DetachRequested { panel_name } => EventView::DetachRequested(panel_name@),
        DockEvent::PanelCloseRequested { panel_name } => EventView::PanelCloseRequested(panel_name@),
    }
}

/// The events of an area, as plain values, oldest first.
pub open spec fn events_of(a: DockArea) -> Seq<EventView> {
    a.events@.map_values(|e: DockEvent| event_view(e))
}

/// The events a successful user interaction with the panel named `n` appends.
pub open spec fn activation_events(n: Seq<char>) -> Seq<EventView> {
    seq![EventView::PanelActivated(n), EventView::LayoutChanged]
}

/// The number of leading panels of `items` whose names are pinned.
pub open spec fn leading_pinned(items: Seq<DockPanel>, pinned: Seq<String>) -> nat
    decreases items.len(),
{
    if items.len() > 0 && in_names(items[0].name@, pinned) {
        1 + leading_pinned(items.drop_first(), pinned)
    } else {
        0
    }
}

/// Whether a side was closed and so is opened by activation.
pub open spec fn side_closed(a: DockArea, root: DockRoot) -> bool {
    match root {
        DockRoot::Center => false,
        DockRoot::Left => a.left is Some && !a.left->0.open,
        DockRoot::Right => a.right is Some && !a.right->0.open,
        DockRoot::Bottom => a.bottom is Some && !a.bottom->0.open,
    }
}

/// Side frames after activation opened `root`.
pub open spec fn opened_frame(s: Option<DockSide>, is_root: bool) -> Option<(u32, bool)> {
    match s {
        Some(side) => Some((side.size, if is_root { true } else { side.open })),
        None => None,
    }
}

/// Find a named panel in one tree: the path to its node and its slot there.
fn locate_in(item: &DockItem, name: &str) -> (r: Option<(Vec<usize>, DockPanelSlot)>)
    ensures
        match r {
            Some((p, slot)) => panel_path(item@, name@) == Some(p@)
                && slot == (match node_at(item@, p@) { Some(m) => slot_in(m, name@), None => DockPanelSlot::Panel }),
            None => panel_path(item@, name@) is None,
        },
{
    let path = match item.find_panel_path(name) {
        Some(p) => p,
        None => return None,
    };
    let slot = match item.item_at_path(&path) {
        Some(found) => match found {
            DockItem::Tabs { items, .. } => DockPanelSlot::Tab(match position_named(items, name) {
                Some(i) => i,
                None => items.len(),
            }),
            DockItem::Tiles { items, .. } => DockPanelSlot::Tile(match position_named(items, name) {
                Some(i) => i,
                None => items.len(),
            }),
            _ => DockPanelSlot::Panel,
        },
        None => DockPanelSlot::Panel,
    };
    Some((path, slot))
}

impl DockArea {
    /// Where the first panel with a stable name is, roots searched center, left, right,
    /// bottom.
    pub fn panel_location(&self, panel_name: &str) -> (r: Option<DockPanelLocation>)
        ensures
            match r {
                Some(l) => location_of(*self, panel_name@) == Some((l.root, l.path@, l.slot)),
                None => location_of(*self, panel_name@) is None,
            },
    {
        let roots = [DockRoot::Center, DockRoot::Left, DockRoot::Right, DockRoot::Bottom];
        let mut k: usize = 0;
        while k < 4
            invariant
                k <= 4,
                roots@ == seq![DockRoot::Center, DockRoot::Left, DockRoot::Right, DockRoot::Bottom],
                forall|j: int| 0 <= j < k ==> match root_node(*self, #[trigger] roots@[j]) {
                    Some(t) => panel_path(t, panel_name@) is None,
                    None => true,
                },
            decreases 4 - k,
        {
            let root = roots[k];
            match self.root_item(root) {
                Some(item) => {
                    match locate_in(item, panel_name) {
                        Some((path, slot)) => {
                            return Some(DockPanelLocation { root, path, slot });
                        },
                        None => {},
                    }
                },
                None => {},
            }
            k = k + 1;
        }
        None
    }

    /// Make a named panel visible: leave any zoom, open its side dock, and activate its
    /// tab. Announces the activation, then a layout change if anything changed. The panel
    /// that was zoomed, if one carried the zoomed name, is told it is no longer zoomed.
    ///
    /// Returns `false`, changing nothing, when no root holds the name.
    pub fn activate_panel_by_name(&mut self, panel_name: &str) -> (r: bool)
        ensures
            match location_of(*old(self), panel_name@) {
                None => !r && *final(self) == *old(self),
                Some((root, path, slot)) => {
                    let tab_changed = match slot {
                        DockPanelSlot::Tab(ix) => tabs_activated(node_in(*old(self), root, path)->0, ix as nat).1,
                        _ => false,
                    };
                    let changed = old(self).zoomed_panel is Some || side_closed(*old(self), root) || tab_changed;
                    &&& r
                    &&& final(self).zoomed_panel is None
                    &&& final(self).panel_calls@ == old(self).panel_calls@ + zoom_calls(
                        zoomed_panel_in(layout_of(*old(self)), old(self).zoomed_panel),
                        None,
                    )
                    &&& others_same(*old(self), *final(self), root)
                    &&& root_node(*final(self), root) == match slot {
                        DockPanelSlot::Tab(ix) => root_replaced(*old(self), root, path,
                            tabs_activated(node_in(*old(self), root, path)->0, ix as nat).0),
                        _ => root_node(*old(self), root),
                    }
                    &&& side_frame(final(self).left) == opened_frame(old(self).left, root == DockRoot::Left)
                    &&& side_frame(final(self).right) == opened_frame(old(self).right, root == DockRoot::Right)
                    &&& side_frame(final(self).bottom) == opened_frame(old(self).bottom, root == DockRoot::Bottom)
                    &&& events_of(*final(self)) == events_of(*old(self)) + if changed {
                        activation_events(panel_name@)
                    } else {
                        seq![EventView::PanelActivated(panel_name@)]
                    }
                },
            },
    {
        let loc = match self.panel_location(panel_name) {
            Some(l) => l,
            None => return false,
        };
        let unzoomed = self.zoomed_live_panel();
        push_zoom_calls(&mut self.panel_calls, &unzoomed, &None);
        let ghost a0 = *self;
        let zoom_cleared = self.zoomed_panel.is_some();
        self.zoomed_panel = None;
        let root_opened = self.open_root(loc.root);
        let ghost a1 = *self;
        assert(forall|r2: DockRoot| #[trigger] root_node(a1, r2) == root_node(a0, r2));
        let mut layout_changed = zoom_cleared || root_opened;
        match loc.slot {
            DockPanelSlot::Tab(ix) => {
                let c = self.set_tabs_active_index(loc.root, &loc.path, ix);
                layout_changed = layout_changed || c;
            },
            _ => {},
        }
        let ghost a2 = *self;
        let ghost e0 = self.events@;
        self.events.push(DockEvent::PanelActivated { panel_name: panel_name.to_owned() });
        if layout_changed {
            self.events.push(DockEvent::LayoutChanged);
        }
        proof {
            assert(self.events@.map_values(|e: DockEvent| event_view(e)) =~= e0.map_values(|e: DockEvent| event_view(e)) + if layout_changed {
                activation_events(panel_name@)
            } else {
                seq![EventView::PanelActivated(panel_name@)]
            });
            assert forall|r2: DockRoot| r2 != loc.root implies #[trigger] root_node(*self, r2) == root_node(a0, r2) by {
                assert(root_node(a1, r2) == root_node(a0, r2));
                assert(root_node(a2, r2) == root_node(*self, r2));
            }
        }
        true
    }

    /// The name of the tab a click at `active_ix` (clamped) selects in the group at `path`,
    /// and whether that tab is not active yet.
    fn tab_click_target(&self, root: DockRoot, path: &Vec<usize>, active_ix: usize) -> (r: Option<(String, bool)>)
        ensures
            match node_in(*self, root, path@) {
                Some(n) => match r {
                    Some((name, changes)) => n matches DockNode::Tabs { items, .. } && items.len() > 0
                        && name@ == items[if active_ix < last_index(items.len()) { active_ix as int } else { last_index(items.len()) as int }].name@
                        && changes == tabs_activated(n, active_ix as nat).1,
                    None => !(n matches DockNode::Tabs { items, .. } && items.len() > 0),
                },
                None => r is None,
            },
    {
        match self.root_item(root) {
            Some(item) => match item.item_at_path(path) {
                Some(found) => match found {
                    DockItem::Tabs { items, active_ix: current } => {
                        if items.len() == 0 {
                            return None;
                        }
                        let last = items.len() - 1;
                        let i = if active_ix < last { active_ix } else { last };
                        Some((items[i].name.clone(), *current != i))
                    },
                    _ => None,
                },
                None => None,
            },
            None => None,
        }
    }

    /// Apply a user tab click: select the clicked tab (clamped) and announce the newly
    /// active panel and a layout change.
    ///
    /// Returns whether the selected tab changed; a click on the active tab, or on anything
    /// but a tab group, changes nothing.
    pub fn activate_tab_from_user(&mut self, root: DockRoot, path: &Vec<usize>, active_ix: usize) -> (r: bool)
        ensures
            final(self).panel_calls == old(self).panel_calls,
            match node_in(*old(self), root, path@) {
                Some(n) => {
                    let named = n matches DockNode::Tabs { items, .. } && items.len() > 0;
                    &&& r == (named && tabs_activated(n, active_ix as nat).1)
                    &&& r ==> root_node(*final(self), root) == root_replaced(*old(self), root, path@, tabs_activated(n, active_ix as nat).0)
                        && others_same(*old(self), *final(self), root)
                        && events_of(*final(self)) == events_of(*old(self)) + activation_events(
                            n->Tabs_items[if active_ix < last_index(n->Tabs_items.len()) { active_ix as int } else { last_index(n->Tabs_items.len()) as int }].name@)
                    &&& !r ==> *final(self) == *old(self)
                },
                None => !r && *final(self) == *old(self),
            },
    {
        let name = match self.tab_click_target(root, path, active_ix) {
            Some((n, true)) => n,
            _ => return false,
        };
        let changed = self.set_tabs_active_index(root, path, active_ix);
        let ghost e0 = self.events@;
        let ghost nv = name@;
        self.events.push(DockEvent::PanelActivated { panel_name: name });
        self.events.push(DockEvent::LayoutChanged);
        proof {
            assert(self.events@.map_values(|e: DockEvent| event_view(e)) =~= e0.map_values(|e: DockEvent| event_view(e)) + activation_events(nv));
        }
        true
    }
}


/// The number of leading pinned tabs of the tab group at `path` in a root; zero for
/// anything but a tab group.
pub open spec fn pinned_count(a: DockArea, root: DockRoot, path: Seq<usize>) -> nat {
    match node_in(a, root, path) {
        Some(DockNode::Tabs { items, .. }) => leading_pinned(items, a.pinned_leading_panels@),
        _ => 0,
    }
}

/// Count the leading panels of `items` whose names are pinned.
fn count_leading_pinned(items: &Vec<DockPanel>, pinned: &Vec<String>) -> (r: usize)
    ensures
        r == leading_pinned(items@, pinned@),
{
    let mut i: usize = 0;
    assert(items@.skip(0) == items@);
    while i < items.len() && name_in(items[i].name.as_str(), pinned)
        invariant
            i <= items.len(),
            leading_pinned(items@, pinned@) == i + leading_pinned(items@.skip(i as int), pinned@),
        decreases items.len() - i,
    {
        assert(items@.skip(i as int).drop_first() == items@.skip(i + 1));
        i = i + 1;
    }
    if i < items.len() {
        assert(items@.skip(i as int)[0] == items@[i as int]);
    }
    i
}

impl DockArea {
    /// Whether a stable panel name is pinned.
    pub fn is_pinned_panel(&self, panel_name: &str) -> (r: bool)
        ensures
            r == in_names(panel_name@, self.pinned_leading_panels@),
    {
        name_in(panel_name, &self.pinned_leading_panels)
    }

    /// The number of leading pinned tabs at a target node, which insertions must not
    /// precede.
    pub fn pinned_count_at(&self, root: DockRoot, path: &Vec<usize>) -> (r: usize)
        ensures
            r == pinned_count(*self, root, path@),
    {
        match self.root_item(root) {
            Some(item) => match item.item_at_path(path) {
                Some(found) => match found {
                    DockItem::Tabs { items, .. } => count_leading_pinned(items, &self.pinned_leading_panels),
                    _ => 0,
                },
                None => 0,
            },
            None => 0,
        }
    }

    /// Whether the subtree at `path` in a root holds a pinned panel.
    pub fn target_contains_pinned_panel(&self, root: DockRoot, path: &Vec<usize>) -> (r: bool)
        ensures
            r == (match node_in(*self, root, path@) {
                Some(n) => any_named(panels_of(n), self.pinned_leading_panels@),
                None => false,
            }),
    {
        match self.root_item(root) {
            Some(item) => match item.item_at_path(path) {
                Some(found) => found.contains_any_panel(&self.pinned_leading_panels),
                None => false,
            },
            None => false,
        }
    }

    /// Move the tab named `panel_name` in the group at `path` before `target_ix` and make
    /// it active; whether the tab was found there.
    pub fn move_tab_before(&mut self, root: DockRoot, path: &Vec<usize>, panel_name: &str, target_ix: usize) -> (r: bool)
        ensures
            final(self).panel_calls == old(self).panel_calls,
            same_frame(*old(self), *final(self)),
            others_same(*old(self), *final(self), root),
            match node_in(*old(self), root, path@) {
                Some(n) => r == tab_moved(n, panel_name@, target_ix as nat).1
                    && root_node(*final(self), root) == root_replaced(*old(self), root, path@, tab_moved(n, panel_name@, target_ix as nat).0),
                None => !r && root_node(*final(self), root) == root_node(*old(self), root),
            },
    {
        let ghost a0 = *self;
        match self.replace_in_root(root, path, DockItem::Empty) {
            Ok(t) => {
                let ghost a1 = *self;
                let (next, moved) = t.with_tab_moved(panel_name, target_ix);
                proof {
                    let n0 = root_node(a0, root)->0;
                    lemma_node_at_replaced(n0, path@, DockNode::Empty);
                    lemma_replaced_twice(n0, path@, DockNode::Empty, next@);
                }
                self.put_back(root, path, next);
                proof {
                    assert forall|r2: DockRoot| r2 != root implies #[trigger] root_node(*self, r2) == root_node(a0, r2) by {
                        assert(root_node(a1, r2) == root_node(a0, r2));
                    }
                }
                moved
            },
            Err(_) => false,
        }
    }

    /// Reorder a tab for a user drag: refused while the layout is locked or for a pinned
    /// panel; the target is raised past the leading pinned tabs. A successful move
    /// announces the activation and a layout change.
    pub fn move_tab_before_from_user(&mut self, root: DockRoot, path: &Vec<usize>, panel_name: &str, target_ix: usize) -> (r: bool)
        ensures
            final(self).panel_calls == old(self).panel_calls,
            !old(self).layout_editable || in_names(panel_name@, old(self).pinned_leading_panels@) ==> !r && *final(self) == *old(self),
            old(self).layout_editable && !in_names(panel_name@, old(self).pinned_leading_panels@) ==> {
                let t = if target_ix >= pinned_count(*old(self), root, path@) { target_ix as nat } else { pinned_count(*old(self), root, path@) };
                match node_in(*old(self), root, path@) {
                    Some(n) => {
                        &&& r == tab_moved(n, panel_name@, t).1
                        &&& r ==> root_node(*final(self), root) == root_replaced(*old(self), root, path@, tab_moved(n, panel_name@, t).0)
                            && others_same(*old(self), *final(self), root)
                            && same_settings(*old(self), *final(self))
                            && events_of(*final(self)) == events_of(*old(self)) + activation_events(panel_name@)
                        &&& !r ==> same_area(*old(self), *final(self))
                    },
                    None => !r && same_area(*old(self), *final(self)),
                }
            },
    {
        if !self.layout_editable || self.is_pinned_panel(panel_name) {
            return false;
        }
        let pc = self.pinned_count_at(root, path);
        let t = if target_ix >= pc { target_ix } else { pc };
        let ghost a0 = *self;
        let moved = self.move_tab_before(root, path, panel_name, t);
        if !moved {
            proof {
                match node_in(a0, root, path@) {
                    Some(n) => lemma_replaced_at_same(root_node(a0, root)->0, path@, n),
                    None => {},
                }
                assert forall|r2: DockRoot| #[trigger] root_node(a0, r2) == root_node(*self, r2) by {}
            }
            return false;
        }
        self.push_activation(panel_name);
        true
    }

    /// Announce a successful user interaction with a panel: its activation, then a layout
    /// change.
    fn push_activation(&mut self, panel_name: &str)
        ensures
            final(self).panel_calls == old(self).panel_calls,
            same_settings(*old(self), *final(self)),
            forall|r2: DockRoot| #[trigger] root_node(*final(self), r2) == root_node(*old(self), r2),
            events_of(*final(self)) == events_of(*old(self)) + activation_events(panel_name@),
    {
        let ghost e0 = self.events@;
        self.events.push(DockEvent::PanelActivated { panel_name: panel_name.to_owned() });
        self.events.push(DockEvent::LayoutChanged);
        proof {
            assert(self.events@.map_values(|e: DockEvent| event_view(e)) =~= e0.map_values(|e: DockEvent| event_view(e)) + activation_events(panel_name@));
        }
    }
}


/// The value of one side dock: its tree, size and open state.
pub type SideValue = (DockNode, u32, bool);

/// The roots of an area as values: the center tree and the three side docks.
pub type LayoutValue = (DockNode, Option<SideValue>, Option<SideValue>, Option<SideValue>);

/// The roots of an area as values.
pub open spec fn layout_of(a: DockArea) -> LayoutValue {
    (a.center@, side_view(a.left), side_view(a.right), side_view(a.bottom))
}

/// The tree of a root in a layout value.
pub open spec fn lv_root(l: LayoutValue, root: DockRoot) -> Option<DockNode> {
    match root {
        DockRoot::Center => Some(l.0),
        DockRoot::Left => match l.1 { Some(s) => Some(s.0), None => None },
        DockRoot::Right => match l.2 { Some(s) => Some(s.0), None => None },
        DockRoot::Bottom => match l.3 { Some(s) => Some(s.0), None => None },
    }
}

/// A layout value with the tree of a present root replaced.
pub open spec fn lv_set_root(l: LayoutValue, root: DockRoot, t: DockNode) -> LayoutValue {
    match root {
        DockRoot::Center => (t, l.1, l.2, l.3),
        DockRoot::Left => match l.1 { Some(s) => (l.0, Some((t, s.1, s.2)), l.2, l.3), None => l },
        DockRoot::Right => match l.2 { Some(s) => (l.0, l.1, Some((t, s.1, s.2)), l.3), None => l },
        DockRoot::Bottom => match l.3 { Some(s) => (l.0, l.1, l.2, Some((t, s.1, s.2))), None => l },
    }
}

/// A side after taking the panel named `n` out of it for a move, and what the take found.
pub open spec fn side_taken(s: Option<SideValue>, n: Seq<char>, d: spec_fn(usize) -> TileMeta) -> (Option<SideValue>, Option<DockPanel>) {
    match s {
        Some((node, size, open)) => (
            if without_named(node, n, d) is Empty { None } else { Some((without_named(node, n, d), size, open)) },
            taken_from(node, n),
        ),
        None => (None, None),
    }
}

/// Taking a panel out for a move: every root in turn, center, left, right, bottom, drops
/// the name until one yields a panel; emptied sides disappear.
pub open spec fn moved_out(l: LayoutValue, n: Seq<char>, d: spec_fn(usize) -> TileMeta) -> (LayoutValue, Option<DockPanel>) {
    let c = without_named(l.0, n, d);
    let tc = taken_from(l.0, n);
    if tc is Some {
        ((c, l.1, l.2, l.3), tc)
    } else {
        let (left, tl) = side_taken(l.1, n, d);
        if tl is Some {
            ((c, left, l.2, l.3), tl)
        } else {
            let (right, tr) = side_taken(l.2, n, d);
            if tr is Some {
                ((c, left, right, l.3), tr)
            } else {
                let (bottom, tb) = side_taken(l.3, n, d);
                ((c, left, right, bottom), tb)
            }
        }
    }
}

/// Where a moved panel goes when its drop target refused it: into the first tab group of
/// the target root, or else below the center in a new vertical split.
pub open spec fn move_fallback(l: LayoutValue, root: DockRoot, p: DockPanel) -> LayoutValue {
    let pushed = match lv_root(l, root) {
        Some(t) => pushed_first_tabs(t, p),
        None => (DockNode::Empty, false),
    };
    if pushed.1 {
        lv_set_root(l, root, pushed.0)
    } else {
        (DockNode::Split { horizontal: false, children: seq![l.0, DockNode::Panel(p)], sizes: Seq::empty() }, l.1, l.2, l.3)
    }
}

/// The path of the drop target after the take: where the anchor panel now is in the
/// root, or the path it was given.
pub open spec fn retargeted(l: LayoutValue, root: DockRoot, path: Seq<usize>, anchor: Seq<char>) -> Seq<usize> {
    match lv_root(l, root) {
        Some(t) => match panel_path(t, anchor) {
            Some(q) => q,
            None => path,
        },
        None => path,
    }
}

/// Dropping a taken panel into the tab group at the retargeted path; whether it landed
/// there.
pub open spec fn dropped_into_tabs(l: LayoutValue, root: DockRoot, path: Seq<usize>, anchor: Seq<char>, target: nat, p: DockPanel) -> (LayoutValue, bool) {
    let tp = retargeted(l, root, path, anchor);
    let landed = match lv_root(l, root) {
        Some(t) => match node_at(t, tp) {
            Some(m) => if tab_inserted(m, target, p).1 {
                Some(lv_set_root(l, root, replaced_at(t, tp, tab_inserted(m, target, p).0)))
            } else {
                None
            },
            None => None,
        },
        None => None,
    };
    match landed {
        Some(l2) => (l2, true),
        None => (move_fallback(l, root, p), false),
    }
}

/// Splitting the node at the retargeted path with a taken panel; whether it landed there.
pub open spec fn dropped_into_split(l: LayoutValue, root: DockRoot, path: Seq<usize>, anchor: Seq<char>, placement: DockSplitPlacement, p: DockPanel) -> (LayoutValue, bool) {
    let tp = retargeted(l, root, path, anchor);
    let landed = match lv_root(l, root) {
        Some(t) => match node_at(t, tp) {
            Some(m) => Some(lv_set_root(l, root, replaced_at(t, tp, split_with(m, placement, p)))),
            None => None,
        },
        None => None,
    };
    match landed {
        Some(l2) => (l2, true),
        None => (move_fallback(l, root, p), false),
    }
}

/// The anchor of a drop target: a panel name other than the dragged one in the target node.
pub open spec fn drop_anchor(a: DockArea, root: DockRoot, path: Seq<usize>, n: Seq<char>) -> Option<Seq<char>> {
    match node_in(a, root, path) {
        Some(m) => first_name_excluding(m, n),
        None => None,
    }
}

/// What moving the panel named `n` into the tab group at `path` of a root does to the
/// layout, and whether the panel landed there.
pub open spec fn tabs_move_outcome(a: DockArea, n: Seq<char>, root: DockRoot, path: Seq<usize>, target: nat, d: spec_fn(usize) -> TileMeta) -> (LayoutValue, bool) {
    match drop_anchor(a, root, path, n) {
        None => (layout_of(a), false),
        Some(anchor) => {
            let (l1, taken) = moved_out(layout_of(a), n, d);
            match taken {
                None => (l1, false),
                Some(p) => dropped_into_tabs(l1, root, path, anchor, target, p),
            }
        },
    }
}

/// What moving the panel named `n` beside the node at `path` of a root does to the layout,
/// and whether the panel landed there.
pub open spec fn split_move_outcome(a: DockArea, n: Seq<char>, root: DockRoot, path: Seq<usize>, placement: DockSplitPlacement, d: spec_fn(usize) -> TileMeta) -> (LayoutValue, bool) {
    match drop_anchor(a, root, path, n) {
        None => (layout_of(a), false),
        Some(anchor) => {
            let (l1, taken) = moved_out(layout_of(a), n, d);
            match taken {
                None => (l1, false),
                Some(p) => dropped_into_split(l1, root, path, anchor, placement, p),
            }
        },
    }
}

/// Whether a user drag of the panel named `n` is refused outright: the layout is locked or
/// the panel is pinned.
pub open spec fn drag_refused(a: DockArea, n: Seq<char>) -> bool {
    !a.layout_editable || in_names(n, a.pinned_leading_panels@)
}

/// The tab index a user drop aims at: never before the leading pinned tabs.
pub open spec fn user_target(a: DockArea, root: DockRoot, path: Seq<usize>, target: nat) -> nat {
    if target >= pinned_count(a, root, path) { target } else { pinned_count(a, root, path) }
}

/// The events a user move appends: the activation pair when the panel landed.
pub open spec fn move_events(landed: bool, n: Seq<char>) -> Seq<EventView> {
    if landed { activation_events(n) } else { Seq::empty() }
}

/// Take a panel named `name` out of one side dock for a move.
fn side_take_for_move<F: Fn(usize) -> TileMeta + Copy>(side: Option<DockSide>, name: &str, missing: F) -> (r: (Option<DockSide>, Option<DockPanel>))
    requires
        fallback_callable(missing),
    ensures
        forall|g: spec_fn(usize) -> TileMeta| #![trigger fallback_agrees(missing, g)] fallback_agrees(missing, g) ==>
            (side_view(r.0), r.1) == side_taken(side_view(side), name@, g),
{
    match side {
        Some(s) => {
            let (item, taken) = s.item.take_panel_named(name, missing);
            if item.is_empty() {
                (None, taken)
            } else {
                (Some(DockSide { item, size: s.size, open: s.open }), taken)
            }
        },
        None => (None, None),
    }
}

impl DockArea {
    /// Take one occurrence of a panel out of the roots for a move: each root in turn
    /// drops the name until one yields a panel; emptied sides disappear.
    pub fn take_panel_named_for_move<F: Fn(usize) -> TileMeta + Copy>(&mut self, panel_name: &str, missing: F) -> (r: Option<DockPanel>)
        requires
            fallback_callable(missing),
        ensures
            final(self).panel_calls == old(self).panel_calls,
            same_prefs(*old(self), *final(self)),
            final(self).events == old(self).events,
            forall|g: spec_fn(usize) -> TileMeta| #![trigger fallback_agrees(missing, g)] fallback_agrees(missing, g) ==>
                (layout_of(*final(self)), r) == moved_out(layout_of(*old(self)), panel_name@, g),
    {
        let ghost l0 = layout_of(*self);
        let mut cur = DockItem::Empty;
        std::mem::swap(&mut cur, &mut self.center);
        let (c, taken) = cur.take_panel_named(panel_name, missing);
        self.center = c;
        if taken.is_some() {
            return taken;
        }
        let (left, tl) = side_take_for_move(self.left.take(), panel_name, missing);
        self.left = left;
        if tl.is_some() {
            return tl;
        }
        let (right, tr) = side_take_for_move(self.right.take(), panel_name, missing);
        self.right = right;
        if tr.is_some() {
            return tr;
        }
        let (bottom, tb) = side_take_for_move(self.bottom.take(), panel_name, missing);
        self.bottom = bottom;
        tb
    }

    /// Drop a panel into the node at `path` in a root (see [`DockItem::with_tab_inserted`]);
    /// whether it was accepted there.
    pub fn insert_panel_into_tabs(&mut self, root: DockRoot, path: &Vec<usize>, target_ix: usize, panel: DockPanel) -> (r: bool)
        ensures
            final(self).panel_calls == old(self).panel_calls,
            same_frame(*old(self), *final(self)),
            others_same(*old(self), *final(self), root),
            match node_in(*old(self), root, path@) {
                Some(n) => r == tab_inserted(n, target_ix as nat, panel).1
                    && root_node(*final(self), root) == root_replaced(*old(self), root, path@, tab_inserted(n, target_ix as nat, panel).0),
                None => !r && root_node(*final(self), root) == root_node(*old(self), root),
            },
    {
        let ghost a0 = *self;
        match self.replace_in_root(root, path, DockItem::Empty) {
            Ok(t) => {
                let ghost a1 = *self;
                let (next, ok) = t.with_tab_inserted(target_ix, panel);
                proof {
                    let n0 = root_node(a0, root)->0;
                    lemma_node_at_replaced(n0, path@, DockNode::Empty);
                    lemma_replaced_twice(n0, path@, DockNode::Empty, next@);
                }
                self.put_back(root, path, next);
                proof {
                    assert forall|r2: DockRoot| r2 != root implies #[trigger] root_node(*self, r2) == root_node(a0, r2) by {
                        assert(root_node(a1, r2) == root_node(a0, r2));
                    }
                }
                ok
            },
            Err(_) => false,
        }
    }

    /// Wrap the node at `path` in a root into a split with `panel` on `placement`; `false`
    /// when there is no such node.
    pub fn split_item_with_panel(&mut self, root: DockRoot, path: &Vec<usize>, placement: DockSplitPlacement, panel: DockPanel) -> (r: bool)
        ensures
            final(self).panel_calls == old(self).panel_calls,
            same_frame(*old(self), *final(self)),
            others_same(*old(self), *final(self), root),
            match node_in(*old(self), root, path@) {
                Some(n) => r && root_node(*final(self), root) == root_replaced(*old(self), root, path@, split_with(n, placement, panel)),
                None => !r && root_node(*final(self), root) == root_node(*old(self), root),
            },
    {
        let ghost a0 = *self;
        match self.replace_in_root(root, path, DockItem::Empty) {
            Ok(t) => {
                let ghost a1 = *self;
                let next = t.split_with_panel(placement, panel);
                proof {
                    let n0 = root_node(a0, root)->0;
                    lemma_node_at_replaced(n0, path@, DockNode::Empty);
                    lemma_replaced_twice(n0, path@, DockNode::Empty, next@);
                }
                self.put_back(root, path, next);
                proof {
                    assert forall|r2: DockRoot| r2 != root implies #[trigger] root_node(*self, r2) == root_node(a0, r2) by {
                        assert(root_node(a1, r2) == root_node(a0, r2));
                    }
                }
                true
            },
            Err(_) => false,
        }
    }

    /// Put a moved panel back where its drop target refused it (see [`move_fallback`]).
    fn place_refused_panel(&mut self, root: DockRoot, panel: DockPanel)
        ensures
            final(self).panel_calls == old(self).panel_calls,
            same_prefs(*old(self), *final(self)),
            final(self).events == old(self).events,
            layout_of(*final(self)) == move_fallback(layout_of(*old(self)), root, panel),
    {
        let pushed = match root {
            DockRoot::Center => self.center.try_push_into_first_tabs(&panel),
            DockRoot::Left => match &mut self.left {
                Some(s) => s.item.try_push_into_first_tabs(&panel),
                None => false,
            },
            DockRoot::Right => match &mut self.right {
                Some(s) => s.item.try_push_into_first_tabs(&panel),
                None => false,
            },
            DockRoot::Bottom => match &mut self.bottom {
                Some(s) => s.item.try_push_into_first_tabs(&panel),
                None => false,
            },
        };
        if !pushed {
            let mut existing = DockItem::Empty;
            std::mem::swap(&mut existing, &mut self.center);
            let mut items = Vec::new();
            items.push(existing);
            items.push(DockItem::Panel(panel));
            proof {
                lemma_view_items(items@);
                assert(view_items(items@) =~= seq![items@[0]@, items@[1]@]);
            }
            self.center = DockItem::Split { horizontal: false, items, sizes: Vec::new() };
        }
    }
}


/// A copy of a path.
fn copy_path(p: &Vec<usize>) -> (r: Vec<usize>)
    ensures
        r@ == p@,
{
    let mut r: Vec<usize> = Vec::new();
    let mut i: usize = 0;
    while i < p.len()
        invariant
            i <= p.len(),
            r@ == p@.take(i as int),
        decreases p.len() - i,
    {
        r.push(p[i]);
        assert(p@.take(i + 1) == p@.take(i as int).push(p@[i as int]));
        i = i + 1;
    }
    assert(p@.take(p.len() as int) == p@);
    r
}

/// The layout of an area whose root `root` now holds `t`, all else as in `a`.
proof fn lemma_layout_after_root_edit(a: DockArea, b: DockArea, root: DockRoot, t: DockNode)
    requires
        same_settings(a, b),
        others_same(a, b, root),
        root_node(a, root) is Some,
        root_node(b, root) == Some(t),
    ensures
        layout_of(b) == lv_set_root(layout_of(a), root, t),
{
    assert(root_node(b, DockRoot::Center) == root_node(a, DockRoot::Center) || root == DockRoot::Center);
    assert(root_node(b, DockRoot::Left) == root_node(a, DockRoot::Left) || root == DockRoot::Left);
    assert(root_node(b, DockRoot::Right) == root_node(a, DockRoot::Right) || root == DockRoot::Right);
    assert(root_node(b, DockRoot::Bottom) == root_node(a, DockRoot::Bottom) || root == DockRoot::Bottom);
}

/// An area whose roots all hold the same trees, with the same side frames, has the same
/// layout.
pub proof fn lemma_layout_same(a: DockArea, b: DockArea)
    requires
        same_settings(a, b),
        forall|r: DockRoot| #[trigger] root_node(a, r) == root_node(b, r),
    ensures
        layout_of(b) == layout_of(a),
{
    assert(root_node(b, DockRoot::Center) == root_node(a, DockRoot::Center));
    assert(root_node(b, DockRoot::Left) == root_node(a, DockRoot::Left));
    assert(root_node(b, DockRoot::Right) == root_node(a, DockRoot::Right));
    assert(root_node(b, DockRoot::Bottom) == root_node(a, DockRoot::Bottom));
}

impl DockArea {
    /// The anchor of a drop target: a panel name, other than the dragged one, in the node at
    /// `path` of a root.
    fn anchor_of(&self, root: DockRoot, path: &Vec<usize>, panel_name: &str) -> (r: Option<String>)
        ensures
            match r {
                Some(a) => drop_anchor(*self, root, path@, panel_name@) == Some(a@),
                None => drop_anchor(*self, root, path@, panel_name@) is None,
            },
    {
        match self.root_item(root) {
            Some(item) => match item.item_at_path(path) {
                Some(m) => m.first_panel_name_excluding(panel_name),
                None => None,
            },
            None => None,
        }
    }

    /// The path of a drop target after a take: where the anchor now is, or `path`.
    fn retarget(&self, root: DockRoot, path: &Vec<usize>, anchor: &str) -> (r: Vec<usize>)
        ensures
            r@ == retargeted(layout_of(*self), root, path@, anchor@),
    {
        match self.root_item(root) {
            Some(item) => match item.find_panel_path(anchor) {
                Some(q) => q,
                None => copy_path(path),
            },
            None => copy_path(path),
        }
    }

    /// Move a panel into the tab group at `path` of a root, at `target_ix`.
    ///
    /// The target is found again through an anchor, another panel of the target node,
    /// because taking the panel out may collapse nodes and shift paths. Dropping a panel on
    /// a node that holds only itself does nothing. When the target refuses the panel it
    /// goes into the first tab group of the root, or else below the center; the move then
    /// reports `false`.
    pub fn move_panel_to_tabs<F: Fn(usize) -> TileMeta + Copy>(&mut self, panel_name: &str, root: DockRoot, path: &Vec<usize>, target_ix: usize, missing: F) -> (r: bool)
        requires
            fallback_callable(missing),
        ensures
            final(self).panel_calls == old(self).panel_calls,
            same_prefs(*old(self), *final(self)),
            final(self).events == old(self).events,
            drop_anchor(*old(self), root, path@, panel_name@) is None ==> !r && *final(self) == *old(self),
            forall|g: spec_fn(usize) -> TileMeta| #![trigger fallback_agrees(missing, g)] fallback_agrees(missing, g) ==>
                (layout_of(*final(self)), r) == tabs_move_outcome(*old(self), panel_name@, root, path@, target_ix as nat, g),
    {
        let anchor = match self.anchor_of(root, path, panel_name) {
            Some(a) => a,
            None => return false,
        };
        let panel = match self.take_panel_named_for_move(panel_name, missing) {
            Some(p) => p,
            None => return false,
        };
        let ghost a1 = *self;
        let target_path = self.retarget(root, path, anchor.as_str());
        if self.insert_panel_into_tabs(root, &target_path, target_ix, panel.share()) {
            proof {
                let t = root_node(a1, root)->0;
                let m = node_at(t, target_path@)->0;
                lemma_layout_after_root_edit(a1, *self, root, replaced_at(t, target_path@, tab_inserted(m, target_ix as nat, panel).0));
            }
            true
        } else {
            let ghost a2 = *self;
            proof {
                match node_in(a1, root, target_path@) {
                    Some(m) => lemma_replaced_at_same(root_node(a1, root)->0, target_path@, m),
                    None => {},
                }
                assert forall|r2: DockRoot| #[trigger] root_node(a1, r2) == root_node(a2, r2) by {}
                lemma_layout_same(a1, a2);
            }
            self.place_refused_panel(root, panel);
            false
        }
    }

    /// Move a panel beside the node at `path` of a root, into a new split on `placement`.
    ///
    /// The target is found again through an anchor as for [`Self::move_panel_to_tabs`];
    /// when it is gone the panel goes into the first tab group of the root, or else below
    /// the center, and the move reports `false`.
    pub fn move_panel_to_split<F: Fn(usize) -> TileMeta + Copy>(&mut self, panel_name: &str, root: DockRoot, path: &Vec<usize>, placement: DockSplitPlacement, missing: F) -> (r: bool)
        requires
            fallback_callable(missing),
        ensures
            final(self).panel_calls == old(self).panel_calls,
            same_prefs(*old(self), *final(self)),
            final(self).events == old(self).events,
            drop_anchor(*old(self), root, path@, panel_name@) is None ==> !r && *final(self) == *old(self),
            forall|g: spec_fn(usize) -> TileMeta| #![trigger fallback_agrees(missing, g)] fallback_agrees(missing, g) ==>
                (layout_of(*final(self)), r) == split_move_outcome(*old(self), panel_name@, root, path@, placement, g),
    {
        let anchor = match self.anchor_of(root, path, panel_name) {
            Some(a) => a,
            None => return false,
        };
        let panel = match self.take_panel_named_for_move(panel_name, missing) {
            Some(p) => p,
            None => return false,
        };
        let ghost a1 = *self;
        let target_path = self.retarget(root, path, anchor.as_str());
        if self.split_item_with_panel(root, &target_path, placement, panel.share()) {
            proof {
                let t = root_node(a1, root)->0;
                let m = node_at(t, target_path@)->0;
                lemma_layout_after_root_edit(a1, *self, root, replaced_at(t, target_path@, split_with(m, placement, panel)));
            }
            true
        } else {
            let ghost a2 = *self;
            proof {
                assert forall|r2: DockRoot| #[trigger] root_node(a1, r2) == root_node(a2, r2) by {}
                lemma_layout_same(a1, a2);
            }
            self.place_refused_panel(root, panel);
            false
        }
    }
}


impl DockArea {
    /// Move a panel between tab groups for a user drag: refused while the layout is locked
    /// or for a pinned panel; the target index is raised past the leading pinned tabs. A
    /// panel that landed announces its activation and a layout change.
    pub fn move_panel_to_tabs_from_user<F: Fn(usize) -> TileMeta + Copy>(&mut self, panel_name: &str, root: DockRoot, path: &Vec<usize>, target_ix: usize, missing: F) -> (r: bool)
        requires
            fallback_callable(missing),
        ensures
            final(self).panel_calls == old(self).panel_calls,
            drag_refused(*old(self), panel_name@) ==> !r && *final(self) == *old(self),
            !drag_refused(*old(self), panel_name@) ==> {
                &&& same_prefs(*old(self), *final(self))
                &&& events_of(*final(self)) == events_of(*old(self)) + move_events(r, panel_name@)
                &&& forall|g: spec_fn(usize) -> TileMeta| #![trigger fallback_agrees(missing, g)] fallback_agrees(missing, g) ==>
                    (layout_of(*final(self)), r) == tabs_move_outcome(*old(self), panel_name@, root, path@,
                        user_target(*old(self), root, path@, target_ix as nat), g)
            },
    {
        if !self.layout_editable || self.is_pinned_panel(panel_name) {
            return false;
        }
        let pc = self.pinned_count_at(root, path);
        let t = if target_ix >= pc { target_ix } else { pc };
        let ghost a0 = *self;
        if !self.move_panel_to_tabs(panel_name, root, path, t, missing) {
            assert(events_of(*self) =~= events_of(a0) + move_events(false, panel_name@));
            return false;
        }
        let ghost a1 = *self;
        self.push_activation(panel_name);
        proof { lemma_layout_same(a1, *self); }
        true
    }

    /// Move a panel into a new split for a user drag: refused while the layout is locked,
    /// for a pinned panel, and on the left of a subtree holding a pinned panel. A panel that
    /// landed announces its activation and a layout change.
    pub fn move_panel_to_split_from_user<F: Fn(usize) -> TileMeta + Copy>(&mut self, panel_name: &str, root: DockRoot, path: &Vec<usize>, placement: DockSplitPlacement, missing: F) -> (r: bool)
        requires
            fallback_callable(missing),
        ensures
            final(self).panel_calls == old(self).panel_calls,
            drag_refused(*old(self), panel_name@) || (placement == DockSplitPlacement::Left
                && (match node_in(*old(self), root, path@) {
                    Some(n) => any_named(panels_of(n), old(self).pinned_leading_panels@),
                    None => false,
                })) ==> !r && *final(self) == *old(self),
            !(drag_refused(*old(self), panel_name@) || (placement == DockSplitPlacement::Left
                && (match node_in(*old(self), root, path@) {
                    Some(n) => any_named(panels_of(n), old(self).pinned_leading_panels@),
                    None => false,
                }))) ==> {
                &&& same_prefs(*old(self), *final(self))
                &&& events_of(*final(self)) == events_of(*old(self)) + move_events(r, panel_name@)
                &&& forall|g: spec_fn(usize) -> TileMeta| #![trigger fallback_agrees(missing, g)] fallback_agrees(missing, g) ==>
                    (layout_of(*final(self)), r) == split_move_outcome(*old(self), panel_name@, root, path@, placement, g)
            },
    {
        if !self.layout_editable || self.is_pinned_panel(panel_name)
            || (placement == DockSplitPlacement::Left && self.target_contains_pinned_panel(root, path)) {
            return false;
        }
        let ghost a0 = *self;
        if !self.move_panel_to_split(panel_name, root, path, placement, missing) {
            assert(events_of(*self) =~= events_of(a0) + move_events(false, panel_name@));
            return false;
        }
        let ghost a1 = *self;
        self.push_activation(panel_name);
        proof { lemma_layout_same(a1, *self); }
        true
    }
}


/// The tree of a side value, or an empty node.
pub open spec fn side_tree(s: Option<SideValue>) -> DockNode {
    match s {
        Some(v) => v.0,
        None => DockNode::Empty,
    }
}

/// Every occurrence of a name in a layout, in center, left, right, bottom order.
pub open spec fn all_occurrences(l: LayoutValue, n: Seq<char>) -> Seq<DockPanel> {
    with_name(panels_of(l.0), n) + with_name(panels_of(side_tree(l.1)), n)
        + with_name(panels_of(side_tree(l.2)), n) + with_name(panels_of(side_tree(l.3)), n)
}

/// A layout with every occurrence of a name removed; emptied sides disappear.
pub open spec fn layout_without(l: LayoutValue, n: Seq<char>, d: spec_fn(usize) -> TileMeta) -> LayoutValue {
    (
        without_named(l.0, n, d),
        side_after(l.1, |x: DockNode| without_named(x, n, d)),
        side_after(l.2, |x: DockNode| without_named(x, n, d)),
        side_after(l.3, |x: DockNode| without_named(x, n, d)),
    )
}

/// The first panel named `n` in a layout, roots searched center, left, right, bottom.
pub open spec fn found_in_layout(l: LayoutValue, n: Seq<char>) -> Option<DockPanel> {
    match first_named(panels_of(l.0), n) {
        Some(p) => Some(p),
        None => match first_named(panels_of(side_tree(l.1)), n) {
            Some(p) => Some(p),
            None => match first_named(panels_of(side_tree(l.2)), n) {
                Some(p) => Some(p),
                None => first_named(panels_of(side_tree(l.3)), n),
            },
        },
    }
}

/// No occurrence of a name is kept exactly when no panel carries it.
proof fn lemma_with_name_empty(s: Seq<DockPanel>, n: Seq<char>)
    ensures
        with_name(s, n).len() == 0 <==> (forall|i: int| 0 <= i < s.len() ==> #[trigger] s[i].name@ != n),
    decreases s.len(),
{
    reveal_with_fuel(Seq::filter, 1);
    if s.len() > 0 {
        lemma_with_name_empty(s.drop_last(), n);
        if with_name(s.drop_last(), n).len() == 0 && s.last().name@ != n {
            assert forall|i: int| 0 <= i < s.len() implies #[trigger] s[i].name@ != n by {
                if i < s.len() - 1 {
                    assert(s.drop_last()[i] == s[i]);
                }
            }
        }
        if with_name(s.drop_last(), n).len() > 0 {
            let i = choose|i: int| 0 <= i < s.drop_last().len() && #[trigger] s.drop_last()[i].name@ == n;
            assert(s[i].name@ == n);
        }
    }
}

/// A panel named `n` is found exactly where some occurrence exists.
pub proof fn lemma_first_named_iff_occurs(s: Seq<DockPanel>, n: Seq<char>)
    ensures
        first_named(s, n) is None <==> with_name(s, n).len() == 0,
{
    lemma_with_name_empty(s, n);
    if first_named(s, n) is Some {
        lemma_first_named_some(s, n);
    } else {
        assert forall|i: int| 0 <= i < s.len() implies #[trigger] s[i].name@ != n by {
            lemma_first_named_none(s, n, i);
        }
    }
}

/// Deduplicating a non-empty sequence of panels leaves at least one.
proof fn lemma_add_unique_nonempty(s: Seq<DockPanel>)
    requires
        s.len() > 0,
    ensures
        add_unique(Seq::empty(), s).len() > 0,
{
    let a = add_unique(Seq::empty(), s.drop_last());
    if has_id(a, s.last().id) {
        let k = choose|k: int| 0 <= k < a.len() && #[trigger] a[k].id == s.last().id;
    }
}

/// The area's roots after enforcing pinned leaders in each tree, and whether any changed.
pub open spec fn layout_enforced(l: LayoutValue, pinned: Seq<String>) -> (LayoutValue, bool) {
    let c = enforced(l.0, pinned);
    let left = match l.1 { Some(s) => (Some((enforced(s.0, pinned).0, s.1, s.2)), enforced(s.0, pinned).1), None => (None, false) };
    let right = match l.2 { Some(s) => (Some((enforced(s.0, pinned).0, s.1, s.2)), enforced(s.0, pinned).1), None => (None, false) };
    let bottom = match l.3 { Some(s) => (Some((enforced(s.0, pinned).0, s.1, s.2)), enforced(s.0, pinned).1), None => (None, false) };
    ((c.0, left.0, right.0, bottom.0), c.1 || left.1 || right.1 || bottom.1)
}

/// Enforce pinned leaders in one side dock.
pub(crate) fn side_enforce(side: &mut Option<DockSide>, pinned: &Vec<String>) -> (r: bool)
    requires
        pinned.len() < usize::MAX,
    ensures
        match side_view(*old(side)) {
            Some(s) => side_view(*final(side)) == Some((enforced(s.0, pinned@).0, s.1, s.2)) && r == enforced(s.0, pinned@).1,
            None => *final(side) is None && !r,
        },
{
    match side {
        Some(s) => s.item.enforce_pinned_leading(pinned),
        None => false,
    }
}

/// Whether two name lists hold the same names in the same order.
fn same_names(a: &Vec<String>, b: &Vec<String>) -> (r: bool)
    ensures
        r == (strings_view(a@) == strings_view(b@)),
{
    if a.len() != b.len() {
        assert(strings_view(a@).len() != strings_view(b@).len());
        return false;
    }
    let mut i: usize = 0;
    while i < a.len()
        invariant
            i <= a.len(),
            a.len() == b.len(),
            forall|k: int| 0 <= k < i ==> a@[k]@ == b@[k]@,
        decreases a.len() - i,
    {
        if !str_eq(a[i].as_str(), b[i].as_str()) {
            assert(strings_view(a@)[i as int] != strings_view(b@)[i as int]);
            return false;
        }
        i = i + 1;
    }
    assert(strings_view(a@) =~= strings_view(b@));
    true
}

impl DockArea {
    /// Remove every occurrence of a name from every root; emptied sides disappear.
    fn extract_from_all_roots<F: Fn(usize) -> TileMeta + Copy>(&mut self, panel_name: &str, missing: F) -> (r: Vec<DockPanel>)
        requires
            fallback_callable(missing),
        ensures
            r@ == all_occurrences(layout_of(*old(self)), panel_name@),
            forall|g: spec_fn(usize) -> TileMeta| #![trigger fallback_agrees(missing, g)] fallback_agrees(missing, g) ==>
                layout_of(*final(self)) == layout_without(layout_of(*old(self)), panel_name@, g),
            same_prefs(*old(self), *final(self)),
            final(self).events == old(self).events,
            final(self).panel_calls == old(self).panel_calls,
    {
        let mut cur = DockItem::Empty;
        std::mem::swap(&mut cur, &mut self.center);
        let (center, mut removed) = cur.extract_panels_named(panel_name, missing);
        self.center = center;
        let left = side_without(self.left.take(), panel_name, missing, &mut removed);
        self.left = left;
        let right = side_without(self.right.take(), panel_name, missing, &mut removed);
        self.right = right;
        let bottom = side_without(self.bottom.take(), panel_name, missing, &mut removed);
        self.bottom = bottom;
        removed
    }

    /// The first panel with a stable name, roots searched center, left, right, bottom.
    pub fn find_panel_named(&self, panel_name: &str) -> (r: Option<DockPanel>)
        ensures
            r == found_in_layout(layout_of(*self), panel_name@),
    {
        find_in_parts(&self.center, &self.left, &self.right, &self.bottom, panel_name)
    }

    /// Take every occurrence of a stable panel name out of every root.
    ///
    /// Returns `None`, changing nothing, when the name is absent. Otherwise returns the
    /// canonical identity, the first in center, left, right, bottom tree order, and every
    /// distinct removed identity in that order. A matching zoom is left and one layout change
    /// is announced. The lifecycle calls are recorded in [`DockArea::panel_calls`]: the
    /// canonical panel is unzoomed first when it was zoomed, then each distinct removed panel
    /// is told it is inactive and then that it was removed, once each.
    pub fn take_panel_by_name<F: Fn(usize) -> TileMeta + Copy>(&mut self, panel_name: &str, missing: F) -> (r: Option<(DockPanel, Vec<DockPanel>)>)
        requires
            fallback_callable(missing),
        ensures
            all_occurrences(layout_of(*old(self)), panel_name@).len() == 0 ==> r is None && *final(self) == *old(self),
            all_occurrences(layout_of(*old(self)), panel_name@).len() > 0 ==> {
                &&& r matches Some((canonical, unique)) && unique@ == add_unique(Seq::empty(), all_occurrences(layout_of(*old(self)), panel_name@))
                    && unique@.len() > 0 && canonical == unique@[0]
                &&& forall|g: spec_fn(usize) -> TileMeta| #![trigger fallback_agrees(missing, g)] fallback_agrees(missing, g) ==>
                    layout_of(*final(self)) == layout_without(layout_of(*old(self)), panel_name@, g)
                &&& final(self).zoomed_panel == (if (match old(self).zoomed_panel { Some(z) => z@ == panel_name@, None => false }) {
                    None
                } else {
                    old(self).zoomed_panel
                })
                &&& final(self).events@ == old(self).events@.push(DockEvent::LayoutChanged)
                &&& final(self).panel_calls@ == old(self).panel_calls@ + take_calls(
                    add_unique(Seq::empty(), all_occurrences(layout_of(*old(self)), panel_name@)),
                    match old(self).zoomed_panel { Some(z) => z@ == panel_name@, None => false },
                )
                &&& final(self).pinned_leading_panels == old(self).pinned_leading_panels
                &&& final(self).layout_editable == old(self).layout_editable
            },
    {
        let ghost l0 = layout_of(*self);
        proof {
            lemma_first_named_iff_occurs(panels_of(l0.0), panel_name@);
            lemma_first_named_iff_occurs(panels_of(side_tree(l0.1)), panel_name@);
            lemma_first_named_iff_occurs(panels_of(side_tree(l0.2)), panel_name@);
            lemma_first_named_iff_occurs(panels_of(side_tree(l0.3)), panel_name@);
        }
        if self.find_panel_named(panel_name).is_none() {
            return None;
        }
        let occurrences = self.extract_from_all_roots(panel_name, missing);
        let mut unique: Vec<DockPanel> = Vec::new();
        push_all_unique(&mut unique, &occurrences);
        proof { lemma_add_unique_nonempty(occurrences@); }
        let canonical = unique[0].share();
        let unzoom = opt_name_is(&self.zoomed_panel, panel_name);
        if unzoom {
            self.zoomed_panel = None;
        }
        push_take_calls(&mut self.panel_calls, &unique, unzoom);
        self.events.push(DockEvent::LayoutChanged);
        Some((canonical, unique))
    }

    /// Set the pinned leading panels: the non-empty names, once each, in the order given.
    ///
    /// Reorders every tab group and horizontal split at once (see
    /// [`DockItem::enforce_pinned_leading`]) and announces a layout change when that changed
    /// the topology, which it returns. Setting the names already configured changes nothing.
    pub fn set_pinned_leading_panels(&mut self, panel_names: Vec<String>) -> (r: bool)
        requires
            panel_names@.len() < usize::MAX,
        ensures
            final(self).panel_calls == old(self).panel_calls,
            strings_view(final(self).pinned_leading_panels@) == dedup_nonempty(strings_view(panel_names@)),
            strings_view(old(self).pinned_leading_panels@) == dedup_nonempty(strings_view(panel_names@)) ==> !r && *final(self) == *old(self),
            strings_view(old(self).pinned_leading_panels@) != dedup_nonempty(strings_view(panel_names@)) ==>
                (layout_of(*final(self)), r) == layout_enforced(layout_of(*old(self)), final(self).pinned_leading_panels@)
                && final(self).events@ == if r { old(self).events@.push(DockEvent::LayoutChanged) } else { old(self).events@ },
            final(self).zoomed_panel == old(self).zoomed_panel,
            final(self).layout_editable == old(self).layout_editable,
    {
        let mut unique: Vec<String> = Vec::new();
        let mut i: usize = 0;
        while i < panel_names.len()
            invariant
                i <= panel_names.len(),
                strings_view(unique@) == dedup_nonempty(strings_view(panel_names@.take(i as int))),
                unique@.len() <= i,
            decreases panel_names.len() - i,
        {
            let name = &panel_names[i];
            proof {
                assert(strings_view(panel_names@.take(i + 1)).drop_last() =~= strings_view(panel_names@.take(i as int)));
                assert(strings_view(panel_names@.take(i + 1)).last() == name@);
            }
            let known = name_in(name.as_str(), &unique);
            proof {
                assert(known == strings_view(unique@).contains(name@)) by {
                    if known {
                        let k = choose|k: int| 0 <= k < unique@.len() && #[trigger] unique@[k]@ == name@;
                        assert(strings_view(unique@)[k] == name@);
                    }
                    if strings_view(unique@).contains(name@) {
                        let k = strings_view(unique@).index_of(name@);
                        assert(unique@[k]@ == name@);
                    }
                }
            }
            if name.unicode_len() > 0 && !known {
                let ghost before = unique@;
                unique.push(name.clone());
                assert(strings_view(unique@) =~= strings_view(before).push(name@));
            }
            i = i + 1;
        }
        assert(panel_names@.take(panel_names.len() as int) == panel_names@);
        if same_names(&self.pinned_leading_panels, &unique) {
            return false;
        }
        self.pinned_leading_panels = unique;
        let mut changed = self.center.enforce_pinned_leading(&self.pinned_leading_panels);
        let c1 = side_enforce(&mut self.left, &self.pinned_leading_panels);
        let c2 = side_enforce(&mut self.right, &self.pinned_leading_panels);
        let c3 = side_enforce(&mut self.bottom, &self.pinned_leading_panels);
        changed = changed || c1 || c2 || c3;
        if changed {
            self.events.push(DockEvent::LayoutChanged);
        }
        changed
    }
}


/// The path to the first of `names`, tried in order, that a tree holds.
pub open spec fn first_path(t: DockNode, names: Seq<String>) -> Option<Seq<usize>>
    decreases names.len(),
{
    if names.len() == 0 {
        None
    } else {
        match panel_path(t, names[0]@) {
            Some(p) => Some(p),
            None => first_path(t, names.drop_first()),
        }
    }
}

/// The path to the smallest subtree holding every name of `names` that a tree holds.
pub open spec fn wrap_path(t: DockNode, names: Seq<String>) -> Option<Seq<usize>> {
    if present_names(t, names).len() > 0 {
        smallest_with(t, present_names(t, names))
    } else {
        None
    }
}

/// The first root, searched bottom, center, left, right, where `f` finds a path.
pub open spec fn search_roots(a: DockArea, f: spec_fn(DockNode) -> Option<Seq<usize>>) -> Option<(DockRoot, Seq<usize>)> {
    let at = |r: DockRoot| match root_node(a, r) {
        Some(t) => f(t),
        None => None,
    };
    if at(DockRoot::Bottom) is Some {
        Some((DockRoot::Bottom, at(DockRoot::Bottom)->0))
    } else if at(DockRoot::Center) is Some {
        Some((DockRoot::Center, at(DockRoot::Center)->0))
    } else if at(DockRoot::Left) is Some {
        Some((DockRoot::Left, at(DockRoot::Left)->0))
    } else if at(DockRoot::Right) is Some {
        Some((DockRoot::Right, at(DockRoot::Right)->0))
    } else {
        None
    }
}

/// Stored sizes padded with flexible slots until they cover all but one of `n` members.
pub open spec fn padded_sizes(sizes: Seq<Option<u32>>, n: nat) -> Seq<Option<u32>> {
    if sizes.len() + 1 < n {
        sizes + Seq::new((n - 1 - sizes.len()) as nat, |k: int| None::<u32>)
    } else {
        sizes
    }
}

/// A split with `p` inserted as a member at `index` (clamped), sized `size`.
pub open spec fn member_inserted(node: DockNode, index: nat, p: DockPanel, size: Option<u32>) -> DockNode {
    match node {
        DockNode::Split { horizontal, children, sizes } => {
            let ix = if index < children.len() { index } else { children.len() };
            let items = children.insert(ix as int, DockNode::Panel(p));
            let padded = padded_sizes(sizes, items.len());
            let at = if ix < padded.len() { ix } else { padded.len() };
            DockNode::Split { horizontal, children: items, sizes: padded.insert(at as int, size) }
        },
        _ => node,
    }
}

/// Whether a placement puts the new panel first.
pub open spec fn panel_first(placement: DockSplitPlacement) -> bool {
    placement == DockSplitPlacement::Left || placement == DockSplitPlacement::Top
}

/// A fresh two-slot split given the remembered sizes of the panel and its sibling, in the
/// order of its slots, when either is known.
pub open spec fn with_remembered_sizes(node: DockNode, placement: DockSplitPlacement, panel_size: Option<u32>, sibling_size: Option<u32>) -> DockNode {
    match node {
        DockNode::Split { horizontal, children, .. } => if panel_size is Some || sibling_size is Some {
            DockNode::Split {
                horizontal,
                children,
                sizes: if panel_first(placement) { seq![panel_size, sibling_size] } else { seq![sibling_size, panel_size] },
            }
        } else {
            node
        },
        _ => node,
    }
}

/// Where a panel returns beside its former siblings, and the new tree of that root.
///
/// First, if a sibling still sits directly in a split of the orientation `placement`
/// implies, the panel becomes a member of that split again at `index`. Otherwise the
/// smallest subtree holding the slot's panels is wrapped into a split with the panel on
/// `placement`. `None` when neither applies.
pub open spec fn beside_outcome(
    a: DockArea,
    p: DockPanel,
    siblings: Seq<String>,
    slot_panels: Seq<String>,
    index: nat,
    placement: DockSplitPlacement,
    panel_size: Option<u32>,
    sibling_size: Option<u32>,
) -> Option<(DockRoot, DockNode)> {
    let want_horizontal = placement == DockSplitPlacement::Left || placement == DockSplitPlacement::Right;
    let anchor = search_roots(a, |t: DockNode| first_path(t, siblings));
    let member = match anchor {
        Some((root, path)) => if path.len() > 0 {
            match node_in(a, root, path.drop_last()) {
                Some(parent) => if parent matches DockNode::Split { horizontal, .. } && horizontal == want_horizontal {
                    Some((root, replaced_at(root_node(a, root)->0, path.drop_last(), member_inserted(parent, index, p, panel_size))))
                } else {
                    None
                },
                None => None,
            }
        } else {
            None
        },
        None => None,
    };
    match member {
        Some(m) => Some(m),
        None => match search_roots(a, |t: DockNode| wrap_path(t, slot_panels)) {
            Some((root, path)) => {
                let t = root_node(a, root)->0;
                match node_at(t, path) {
                    Some(m) => Some((root, replaced_at(t, path, with_remembered_sizes(split_with(m, placement, p), placement, panel_size, sibling_size)))),
                    None => None,
                }
            },
            None => None,
        },
    }
}

/// The path to the first of `names`, tried in order, that `item` holds.
fn first_path_in(item: &DockItem, names: &Vec<String>) -> (r: Option<Vec<usize>>)
    ensures
        match r {
            Some(p) => first_path(item@, names@) == Some(p@),
            None => first_path(item@, names@) is None,
        },
{
    let mut k: usize = 0;
    assert(names@.skip(0) == names@);
    while k < names.len()
        invariant
            k <= names.len(),
            first_path(item@, names@) == first_path(item@, names@.skip(k as int)),
        decreases names.len() - k,
    {
        assert(names@.skip(k as int).drop_first() == names@.skip(k + 1));
        assert(names@.skip(k as int)[0] == names@[k as int]);
        match item.find_panel_path(names[k].as_str()) {
            Some(p) => return Some(p),
            None => {},
        }
        k = k + 1;
    }
    None
}

/// Extend stored split sizes with flexible slots until they cover all but one of `n` members.
fn pad_sizes(sizes: &mut Vec<Option<u32>>, n: usize)
    ensures
        final(sizes)@ == padded_sizes(old(sizes)@, n as nat),
{
    let ghost s0 = sizes@;
    while n > 0 && sizes.len() < n - 1
        invariant
            s0.len() <= sizes@.len(),
            sizes@ == s0 + Seq::new((sizes@.len() - s0.len()) as nat, |k: int| None::<u32>),
            s0.len() + 1 < n ==> sizes@.len() + 1 <= n,
            s0.len() + 1 >= n ==> sizes@ == s0,
        decreases n - sizes.len(),
    {
        let ghost before = sizes@;
        sizes.push(None);
        assert(sizes@ =~= s0 + Seq::new((sizes@.len() - s0.len()) as nat, |k: int| None::<u32>));
    }
    assert(sizes@ =~= padded_sizes(s0, n as nat));
}

impl DockArea {
    /// The first root, searched bottom, center, left, right, holding one of `names`, and the
    /// path to the first of them that it holds.
    fn sibling_anchor(&self, names: &Vec<String>) -> (r: Option<(DockRoot, Vec<usize>)>)
        ensures
            match r {
                Some((root, p)) => search_roots(*self, |t: DockNode| first_path(t, names@)) == Some((root, p@)),
                None => search_roots(*self, |t: DockNode| first_path(t, names@)) is None,
            },
    {
        let roots = [DockRoot::Bottom, DockRoot::Center, DockRoot::Left, DockRoot::Right];
        let mut k: usize = 0;
        while k < 4
            invariant
                k <= 4,
                roots@ == seq![DockRoot::Bottom, DockRoot::Center, DockRoot::Left, DockRoot::Right],
                forall|j: int| 0 <= j < k ==> match root_node(*self, #[trigger] roots@[j]) {
                    Some(t) => first_path(t, names@) is None,
                    None => true,
                },
            decreases 4 - k,
        {
            let root = roots[k];
            match self.root_item(root) {
                Some(item) => match first_path_in(item, names) {
                    Some(p) => return Some((root, p)),
                    None => {},
                },
                None => {},
            }
            k = k + 1;
        }
        None
    }

    /// The first root, searched bottom, center, left, right, holding any of `names`, and the
    /// path to its smallest subtree holding all of them that it holds.
    fn wrap_target(&self, names: &Vec<String>) -> (r: Option<(DockRoot, Vec<usize>)>)
        ensures
            match r {
                Some((root, p)) => search_roots(*self, |t: DockNode| wrap_path(t, names@)) == Some((root, p@)),
                None => search_roots(*self, |t: DockNode| wrap_path(t, names@)) is None,
            },
    {
        let roots = [DockRoot::Bottom, DockRoot::Center, DockRoot::Left, DockRoot::Right];
        let mut k: usize = 0;
        while k < 4
            invariant
                k <= 4,
                roots@ == seq![DockRoot::Bottom, DockRoot::Center, DockRoot::Left, DockRoot::Right],
                forall|j: int| 0 <= j < k ==> match root_node(*self, #[trigger] roots@[j]) {
                    Some(t) => wrap_path(t, names@) is None,
                    None => true,
                },
            decreases 4 - k,
        {
            let root = roots[k];
            match self.root_item(root) {
                Some(item) => match item.smallest_subtree_with_all(names) {
                    Some(p) => return Some((root, p)),
                    None => {},
                },
                None => {},
            }
            k = k + 1;
        }
        None
    }

    /// The path of the parent of the node at `path` in a root, when that parent is a split
    /// of the given orientation.
    fn member_parent(&self, root: DockRoot, path: &Vec<usize>, want_horizontal: bool) -> (r: Option<Vec<usize>>)
        ensures
            match r {
                Some(pp) => path@.len() > 0 && pp@ == path@.drop_last()
                    && (node_in(*self, root, pp@) matches Some(DockNode::Split { horizontal, .. }) && horizontal == want_horizontal),
                None => !(path@.len() > 0 && (node_in(*self, root, path@.drop_last()) matches Some(DockNode::Split { horizontal, .. })
                    && horizontal == want_horizontal)),
            },
    {
        if path.len() == 0 {
            return None;
        }
        let mut parent_path: Vec<usize> = Vec::new();
        let mut i: usize = 0;
        while i + 1 < path.len()
            invariant
                i + 1 <= path.len(),
                parent_path@ == path@.take(i as int),
            decreases path.len() - i,
        {
            parent_path.push(path[i]);
            assert(path@.take(i + 1) == path@.take(i as int).push(path@[i as int]));
            i = i + 1;
        }
        assert(parent_path@ == path@.drop_last());
        let matches = match self.root_item(root) {
            Some(item) => match item.item_at_path(&parent_path) {
                Some(found) => match found {
                    DockItem::Split { horizontal, .. } => *horizontal == want_horizontal,
                    _ => false,
                },
                None => false,
            },
            None => false,
        };
        if matches { Some(parent_path) } else { None }
    }

    /// Insert a panel as a member of the split at `path` in a root.
    fn insert_member_at(&mut self, root: DockRoot, path: &Vec<usize>, index: usize, panel: DockPanel, panel_size: Option<u32>)
        requires
            node_in(*old(self), root, path@) matches Some(DockNode::Split { .. }),
        ensures
            final(self).panel_calls == old(self).panel_calls,
            same_frame(*old(self), *final(self)),
            others_same(*old(self), *final(self), root),
            root_node(*final(self), root) == root_replaced(*old(self), root, path@,
                member_inserted(node_in(*old(self), root, path@)->0, index as nat, panel, panel_size)),
    {
        let ghost a0 = *self;
        match self.replace_in_root(root, path, DockItem::Empty) {
            Ok(DockItem::Split { horizontal, mut items, mut sizes }) => {
                let ghost a1 = *self;
                let ghost parent = DockItem::Split { horizontal, items, sizes }@;
                let ix = if index < items.len() { index } else { items.len() };
                proof { lemma_view_items(items@); }
                items.insert(ix, DockItem::Panel(panel));
                proof {
                    lemma_view_items(items@);
                    assert(view_items(items@) =~= parent->Split_children.insert(ix as int, DockNode::Panel(panel)));
                }
                pad_sizes(&mut sizes, items.len());
                let at = if ix < sizes.len() { ix } else { sizes.len() };
                sizes.insert(at, panel_size);
                let next = DockItem::Split { horizontal, items, sizes };
                proof {
                    let n0 = root_node(a0, root)->0;
                    lemma_node_at_replaced(n0, path@, DockNode::Empty);
                    lemma_replaced_twice(n0, path@, DockNode::Empty, next@);
                    assert(next@ == member_inserted(parent, index as nat, panel, panel_size));
                }
                self.put_back(root, path, next);
                proof {
                    assert forall|r2: DockRoot| r2 != root implies #[trigger] root_node(*self, r2) == root_node(a0, r2) by {
                        assert(root_node(a1, r2) == root_node(a0, r2));
                    }
                }
            },
            _ => {},
        }
    }

    /// Wrap the node at `path` in a root into a split with `panel` on `placement`, giving
    /// the split the remembered sizes when either is known.
    fn wrap_at(&mut self, root: DockRoot, path: &Vec<usize>, placement: DockSplitPlacement, panel: DockPanel, panel_size: Option<u32>, sibling_size: Option<u32>)
        requires
            node_in(*old(self), root, path@) is Some,
        ensures
            final(self).panel_calls == old(self).panel_calls,
            same_frame(*old(self), *final(self)),
            others_same(*old(self), *final(self), root),
            root_node(*final(self), root) == root_replaced(*old(self), root, path@,
                with_remembered_sizes(split_with(node_in(*old(self), root, path@)->0, placement, panel), placement, panel_size, sibling_size)),
    {
        let ghost a0 = *self;
        match self.replace_in_root(root, path, DockItem::Empty) {
            Ok(m) => {
                let ghost a1 = *self;
                let ghost mv = m@;
                let split = m.split_with_panel(placement, panel);
                let next = if panel_size.is_some() || sibling_size.is_some() {
                    match split {
                        DockItem::Split { horizontal, items, sizes: _ } => {
                            let mut sizes: Vec<Option<u32>> = Vec::new();
                            let first = match placement {
                                DockSplitPlacement::Left | DockSplitPlacement::Top => true,
                                _ => false,
                            };
                            if first {
                                sizes.push(panel_size);
                                sizes.push(sibling_size);
                            } else {
                                sizes.push(sibling_size);
                                sizes.push(panel_size);
                            }
                            proof {
                                assert(sizes@ =~= if panel_first(placement) { seq![panel_size, sibling_size] } else { seq![sibling_size, panel_size] });
                            }
                            DockItem::Split { horizontal, items, sizes }
                        },
                        other => other,
                    }
                } else {
                    split
                };
                proof {
                    let n0 = root_node(a0, root)->0;
                    lemma_node_at_replaced(n0, path@, DockNode::Empty);
                    lemma_replaced_twice(n0, path@, DockNode::Empty, next@);
                    assert(next@ == with_remembered_sizes(split_with(mv, placement, panel), placement, panel_size, sibling_size));
                }
                self.put_back(root, path, next);
                proof {
                    assert forall|r2: DockRoot| r2 != root implies #[trigger] root_node(*self, r2) == root_node(a0, r2) by {
                        assert(root_node(a1, r2) == root_node(a0, r2));
                    }
                }
            },
            Err(_) => {},
        }
    }

    /// Put a panel back beside its former siblings (see [`beside_outcome`]), announcing a
    /// layout change and telling the panel that it joined the dock; `false`, changing
    /// nothing, when no sibling or slot panel is left.
    pub fn insert_panel_beside_sibling(
        &mut self,
        panel: DockPanel,
        sibling_names: &Vec<String>,
        slot_panels: &Vec<String>,
        index: usize,
        placement: DockSplitPlacement,
        panel_size: Option<u32>,
        sibling_size: Option<u32>,
    ) -> (r: bool)
        ensures
            match beside_outcome(*old(self), panel, sibling_names@, slot_panels@, index as nat, placement, panel_size, sibling_size) {
                Some((root, t)) => r && root_node(*final(self), root) == Some(t)
                    && others_same(*old(self), *final(self), root)
                    && same_settings(*old(self), *final(self))
                    && final(self).events@ == old(self).events@.push(DockEvent::LayoutChanged)
                    && final(self).panel_calls@ == old(self).panel_calls@.push(PanelCall::AddedTo { panel }),
                None => !r && *final(self) == *old(self),
            },
    {
        let want_horizontal = match placement {
            DockSplitPlacement::Left | DockSplitPlacement::Right => true,
            _ => false,
        };
        let member = match self.sibling_anchor(sibling_names) {
            Some((root, path)) => match self.member_parent(root, &path, want_horizontal) {
                Some(pp) => Some((root, pp)),
                None => None,
            },
            None => None,
        };
        match member {
            Some((root, pp)) => {
                let added = panel.share();
                self.insert_member_at(root, &pp, index, panel, panel_size);
                self.panel_calls.push(PanelCall::AddedTo { panel: added });
                self.events.push(DockEvent::LayoutChanged);
                return true;
            },
            None => {},
        }
        let (root, path) = match self.wrap_target(slot_panels) {
            Some(t) => t,
            None => return false,
        };
        let present = match self.root_item(root) {
            Some(item) => item.item_at_path(&path).is_some(),
            None => false,
        };
        if !present {
            return false;
        }
        let added = panel.share();
        self.wrap_at(root, &path, placement, panel, panel_size, sibling_size);
        self.panel_calls.push(PanelCall::AddedTo { panel: added });
        self.events.push(DockEvent::LayoutChanged);
        true
    }
}

/// The first panel with a stable name in the given roots, searched center, left, right,
/// bottom.
pub(crate) fn find_in_parts(center: &DockItem, left: &Option<DockSide>, right: &Option<DockSide>, bottom: &Option<DockSide>, panel_name: &str) -> (r: Option<DockPanel>)
    ensures
        r == found_in_layout((center@, side_view(*left), side_view(*right), side_view(*bottom)), panel_name@),
{
    match center.find_panel_named(panel_name) {
        Some(p) => return Some(p),
        None => {},
    }
    match left {
        Some(s) => match s.item.find_panel_named(panel_name) {
            Some(p) => return Some(p),
            None => {},
        },
        None => {},
    }
    match right {
        Some(s) => match s.item.find_panel_named(panel_name) {
            Some(p) => return Some(p),
            None => {},
        },
        None => {},
    }
    match bottom {
        Some(s) => s.item.find_panel_named(panel_name),
        None => None,
    }
}

} // verus!
