//! Exact local layouts by name: the topology together with each tab group's active panel and
//! the zoomed panel, keyed by where each tab group sits.

use vstd::prelude::*;

use super::area::{
    find_in_parts, found_in_layout, layout_enforced, layout_of, side_enforce, side_view, DockArea,
    DockEvent, DockRoot, DockSide, LayoutValue,
};
use super::edit::{index_named, position_named};
use super::item::{
    fallback_agrees, fallback_callable, lemma_take_step, lemma_view_items, str_eq, view_items,
    DockItem, DockNode, DockPanel, TileMeta,
};
use super::lifecycle::{push_replacement_calls, replacement_calls, zoomed_panel_in};
use super::shared::{has_duplicates, resolved_layout, topo_layout_of, topology_for_parts, unique_of};
use super::topology::{
    layout_names, names_view, normalized_layout, same_topology, DockTopologyByName, TopoLayout,
};
use crate::text::{decimal, push_char, push_decimal};

verus! {

/// The key word of a root.
pub open spec fn root_key(root: DockRoot) -> Seq<char> {
    match root {
        DockRoot::Center => "center"@,
        DockRoot::Left => "left"@,
        DockRoot::Right => "right"@,
        DockRoot::Bottom => "bottom"@,
    }
}

/// The child indices of a split path in decimal, joined by dots.
pub open spec fn path_text(path: Seq<usize>) -> Seq<char>
    decreases path.len(),
{
    if path.len() == 0 {
        Seq::empty()
    } else if path.len() == 1 {
        decimal(path[0] as nat)
    } else {
        path_text(path.drop_last()) + seq!['.'] + decimal(path.last() as nat)
    }
}

/// The key of the tab group at `path` under `root`: the root's word, followed for a nested
/// group by a colon and its path, as in `center:0.1`.
pub open spec fn split_key(root: DockRoot, path: Seq<usize>) -> Seq<char> {
    if path.len() == 0 {
        root_key(root)
    } else {
        root_key(root) + seq![':'] + path_text(path)
    }
}

/// The index of the panel a tab group shows: its active index, or its last panel when the
/// index is past the end.
pub open spec fn shown_index(len: nat, active_ix: nat) -> int {
    if active_ix < len {
        active_ix as int
    } else {
        len - 1
    }
}

/// The active-tab entries of a node at `path` under `root`, in traversal order: one per
/// non-empty tab group, its key and the name of the panel it shows.
pub open spec fn tab_entries(node: DockNode, root: DockRoot, path: Seq<usize>) -> Seq<(Seq<char>, Seq<char>)>
    decreases node,
{
    match node {
        DockNode::Tabs { items, active_ix } => if items.len() > 0 {
            seq![(split_key(root, path), items[shown_index(items.len(), active_ix)].name@)]
        } else {
            Seq::empty()
        },
        DockNode::Split { children, .. } => tab_entries_all(children, root, path),
        _ => Seq::empty(),
    }
}

/// The active-tab entries of the children of a split at `path`, each child at its index.
pub open spec fn tab_entries_all(cs: Seq<DockNode>, root: DockRoot, path: Seq<usize>) -> Seq<(Seq<char>, Seq<char>)>
    decreases cs,
{
    if cs.len() == 0 {
        Seq::empty()
    } else {
        tab_entries_all(cs.drop_last(), root, path) + tab_entries(cs.last(), root, path.push((cs.len() - 1) as usize))
    }
}

/// The active-tab entries of a side dock.
pub open spec fn side_tab_entries(s: Option<(DockNode, u32, bool)>, root: DockRoot) -> Seq<(Seq<char>, Seq<char>)> {
    match s {
        Some(v) => tab_entries(v.0, root, Seq::empty()),
        None => Seq::empty(),
    }
}

/// The active-tab entries of a layout: center, left, right, bottom.
pub open spec fn layout_tab_entries(l: LayoutValue) -> Seq<(Seq<char>, Seq<char>)> {
    tab_entries(l.0, DockRoot::Center, Seq::empty()) + side_tab_entries(l.1, DockRoot::Left)
        + side_tab_entries(l.2, DockRoot::Right) + side_tab_entries(l.3, DockRoot::Bottom)
}

/// The value of a list of key and name pairs.
pub open spec fn entries_view(v: Seq<(String, String)>) -> Seq<(Seq<char>, Seq<char>)> {
    v.map_values(|e: (String, String)| (e.0@, e.1@))
}

/// The name recorded for `key`: that of its last entry, as a map filled entry by entry
/// keeps it.
pub open spec fn entry_for(entries: Seq<(Seq<char>, Seq<char>)>, key: Seq<char>) -> Option<Seq<char>>
    decreases entries.len(),
{
    if entries.len() == 0 {
        None
    } else if entries.last().0 == key {
        Some(entries.last().1)
    } else {
        entry_for(entries.drop_last(), key)
    }
}

/// The key word of a root.
fn root_word(root: DockRoot) -> (r: String)
    ensures
        r@ == root_key(root),
{
    match root {
        DockRoot::Center => "center".to_string(),
        DockRoot::Left => "left".to_string(),
        DockRoot::Right => "right".to_string(),
        DockRoot::Bottom => "bottom".to_string(),
    }
}

/// The key of the tab group at `path` under `root`.
pub fn split_key_text(root: DockRoot, path: &Vec<usize>) -> (r: String)
    ensures
        r@ == split_key(root, path@),
{
    let mut s = root_word(root);
    if path.len() == 0 {
        return s;
    }
    let ghost head = s@ + seq![':'];
    push_char(&mut s, ':');
    let mut i: usize = 0;
    while i < path.len()
        invariant
            i <= path.len(),
            path.len() > 0,
            s@ == head + path_text(path@.take(i as int)),
        decreases path.len() - i,
    {
        let ghost before = s@;
        if i > 0 {
            push_char(&mut s, '.');
        }
        push_decimal(&mut s, path[i]);
        proof {
            let t = path@.take(i + 1);
            assert(t.drop_last() == path@.take(i as int));
            assert(t.last() == path@[i as int]);
            if i == 0 {
                assert(path_text(t) == decimal(path@[0] as nat));
                assert(path@.take(0).len() == 0);
            } else {
                assert(path_text(t) == path_text(path@.take(i as int)) + seq!['.'] + decimal(path@[i as int] as nat));
            }
        }
        i = i + 1;
    }
    assert(path@.take(path.len() as int) == path@);
    s
}

/// `path` with one more index.
fn path_with(path: &Vec<usize>, ix: usize) -> (r: Vec<usize>)
    ensures
        r@ == path@.push(ix),
{
    let mut r: Vec<usize> = Vec::new();
    let mut i: usize = 0;
    while i < path.len()
        invariant
            i <= path.len(),
            r@ == path@.take(i as int),
        decreases path.len() - i,
    {
        r.push(path[i]);
        assert(path@.take(i + 1) == path@.take(i as int).push(path@[i as int]));
        i = i + 1;
    }
    assert(path@.take(path.len() as int) == path@);
    r.push(ix);
    r
}

/// The index of the last entry for `key`.
fn last_entry(entries: &Vec<(String, String)>, key: &str) -> (r: Option<usize>)
    ensures
        match r {
            Some(i) => i < entries@.len() && entry_for(entries_view(entries@), key@) == Some(entries@[i as int].1@),
            None => entry_for(entries_view(entries@), key@) is None,
        },
{
    let ghost ev = entries_view(entries@);
    let mut i: usize = entries.len();
    assert(ev.take(i as int) == ev);
    while i > 0
        invariant
            i <= entries.len(),
            ev == entries_view(entries@),
            entry_for(ev, key@) == entry_for(ev.take(i as int), key@),
        decreases i,
    {
        let ghost t = ev.take(i as int);
        assert(t.drop_last() == ev.take(i - 1));
        assert(t.last() == (entries@[i - 1].0@, entries@[i - 1].1@));
        if str_eq(entries[i - 1].0.as_str(), key) {
            return Some(i - 1);
        }
        i = i - 1;
    }
    None
}

impl DockItem {
    /// Append the active-tab entry of every non-empty tab group of this node, placed at
    /// `path` under `root`, to `out`.
    pub fn collect_tab_entries(&self, root: DockRoot, path: &Vec<usize>, out: &mut Vec<(String, String)>)
        ensures
            entries_view(final(out)@) == entries_view(old(out)@) + tab_entries(self@, root, path@),
        decreases self,
    {
        match self {
            DockItem::Tabs { items, active_ix } => {
                if items.len() > 0 {
                    let i = if *active_ix < items.len() { *active_ix } else { items.len() - 1 };
                    let key = split_key_text(root, path);
                    let ghost prev = out@;
                    out.push((key, items[i].name.clone()));
                    assert(entries_view(out@) =~= entries_view(prev) + tab_entries(self@, root, path@));
                } else {
                    assert(entries_view(out@) + Seq::<(Seq<char>, Seq<char>)>::empty() == entries_view(out@));
                }
            },
            DockItem::Split { items, .. } => {
                let ghost start = entries_view(out@);
                let ghost v = view_items(items@);
                proof { lemma_view_items(items@); }
                let mut i: usize = 0;
                #[verifier::loop_isolation(false)]
                while i < items.len()
                    invariant
                        i <= items.len(),
                        entries_view(out@) == start + tab_entries_all(v.take(i as int), root, path@),
                    decreases items.len() - i,
                {
                    proof {
                        assert(v.take(i + 1).drop_last() == v.take(i as int));
                        assert(v.take(i + 1).last() == v[i as int]);
                        assert(v.take(i + 1).len() - 1 == i);
                    }
                    let child_path = path_with(path, i);
                    items[i].collect_tab_entries(root, &child_path, out);
                    proof {
                        assert(start + tab_entries_all(v.take(i as int), root, path@) + tab_entries(v[i as int], root, path@.push(i))
                            == start + (tab_entries_all(v.take(i as int), root, path@) + tab_entries(v[i as int], root, path@.push(i))));
                    }
                    i = i + 1;
                }
                assert(v.take(items.len() as int) == v);
            },
            _ => {
                assert(entries_view(out@) + Seq::<(Seq<char>, Seq<char>)>::empty() == entries_view(out@));
            },
        }
    }
}

/// A node whose tab groups activate the panel recorded for their key in `entries`, where
/// they hold a panel with that name (the first such panel); other tab groups are unchanged.
pub open spec fn with_named_active(node: DockNode, root: DockRoot, path: Seq<usize>, entries: Seq<(Seq<char>, Seq<char>)>) -> DockNode
    decreases node,
{
    match node {
        DockNode::Tabs { items, active_ix } => match entry_for(entries, split_key(root, path)) {
            Some(n) => {
                let i = index_named(items, n);
                if i < items.len() { DockNode::Tabs { items, active_ix: i as nat } } else { node }
            },
            None => node,
        },
        DockNode::Split { horizontal, children, sizes } => DockNode::Split {
            horizontal,
            children: with_named_active_all(children, root, path, entries),
            sizes,
        },
        _ => node,
    }
}

/// The children of a split at `path` with their tab groups activated from `entries`.
pub open spec fn with_named_active_all(cs: Seq<DockNode>, root: DockRoot, path: Seq<usize>, entries: Seq<(Seq<char>, Seq<char>)>) -> Seq<DockNode>
    decreases cs,
{
    if cs.len() == 0 {
        Seq::empty()
    } else {
        with_named_active_all(cs.drop_last(), root, path, entries).push(
            with_named_active(cs.last(), root, path.push((cs.len() - 1) as usize), entries),
        )
    }
}

/// A side with its tab groups activated from `entries`.
pub open spec fn side_with_named_active(s: Option<(DockNode, u32, bool)>, root: DockRoot, entries: Seq<(Seq<char>, Seq<char>)>) -> Option<(DockNode, u32, bool)> {
    match s {
        Some(v) => Some((with_named_active(v.0, root, Seq::empty(), entries), v.1, v.2)),
        None => None,
    }
}

/// A layout with its tab groups activated from `entries`.
pub open spec fn layout_with_named_active(l: LayoutValue, entries: Seq<(Seq<char>, Seq<char>)>) -> LayoutValue {
    (
        with_named_active(l.0, DockRoot::Center, Seq::empty(), entries),
        side_with_named_active(l.1, DockRoot::Left, entries),
        side_with_named_active(l.2, DockRoot::Right, entries),
        side_with_named_active(l.3, DockRoot::Bottom, entries),
    )
}

/// The layout a named layout restores onto `l`: its topology resolved against the panels of
/// `l` and `additional` (panels it does not name are dropped), the recorded active tabs
/// applied, and pinned panels leading.
pub open spec fn named_applied(
    l: LayoutValue,
    topology: TopoLayout,
    entries: Seq<(Seq<char>, Seq<char>)>,
    additional: Seq<DockPanel>,
    pinned: Seq<String>,
    d: spec_fn(usize) -> TileMeta,
) -> LayoutValue {
    layout_enforced(layout_with_named_active(resolved_layout(l, topology, additional, false, d), entries), pinned).0
}

/// The zoom a named layout keeps on `next`: its zoomed panel while `next` holds it.
pub open spec fn kept_zoom(next: LayoutValue, zoomed: Option<Seq<char>>) -> Option<Seq<char>> {
    match zoomed {
        Some(n) => if found_in_layout(next, n) is Some { Some(n) } else { None },
        None => None,
    }
}

/// The value of an optional name.
pub open spec fn name_view(o: Option<String>) -> Option<Seq<char>> {
    match o {
        Some(s) => Some(s@),
        None => None,
    }
}

impl DockItem {
    /// Activate, in every tab group of this node placed at `path` under `root`, the first
    /// panel named as recorded for the group's key in `entries`, where there is one.
    pub fn with_named_active(self, root: DockRoot, path: &Vec<usize>, entries: &Vec<(String, String)>) -> (r: DockItem)
        ensures
            r@ == with_named_active(self@, root, path@, entries_view(entries@)),
        decreases self,
    {
        match self {
            DockItem::Tabs { items, active_ix } => {
                let key = split_key_text(root, path);
                match last_entry(entries, key.as_str()) {
                    Some(e) => match position_named(&items, entries[e].1.as_str()) {
                        Some(ix) => DockItem::Tabs { items, active_ix: ix },
                        None => DockItem::Tabs { items, active_ix },
                    },
                    None => DockItem::Tabs { items, active_ix },
                }
            },
            DockItem::Split { horizontal, items, sizes } => {
                let ghost orig = items@;
                let ghost vorig = view_items(orig);
                proof { lemma_view_items(orig); }
                let mut items = items;
                let mut out: Vec<DockItem> = Vec::new();
                let mut i: usize = 0;
                #[verifier::loop_isolation(false)]
                while i < items.len()
                    invariant
                        i <= items.len(),
                        items@.len() == orig.len(),
                        forall|j: int| i <= j < orig.len() ==> items@[j] == orig[j],
                        view_items(out@) == with_named_active_all(vorig.take(i as int), root, path@, entries_view(entries@)),
                    decreases items.len() - i,
                {
                    let mut child = DockItem::Empty;
                    std::mem::swap(&mut child, &mut items[i]);
                    assert(child == orig[i as int]);
                    let child_path = path_with(path, i);
                    let next = child.with_named_active(root, &child_path, entries);
                    proof {
                        lemma_take_step(vorig, i as int);
                        assert(out@.push(next).drop_last() == out@);
                        assert(vorig.take(i + 1).len() - 1 == i);
                    }
                    out.push(next);
                    i = i + 1;
                }
                assert(vorig.take(orig.len() as int) == vorig);
                DockItem::Split { horizontal, items: out, sizes }
            },
            other => other,
        }
    }
}

/// A side with its tab groups activated from `entries`.
fn side_named_active(side: Option<DockSide>, root: DockRoot, entries: &Vec<(String, String)>) -> (r: Option<DockSide>)
    ensures
        side_view(r) == side_with_named_active(side_view(side), root, entries_view(entries@)),
{
    match side {
        Some(s) => {
            let empty: Vec<usize> = Vec::new();
            Some(DockSide { item: s.item.with_named_active(root, &empty, entries), size: s.size, open: s.open })
        },
        None => None,
    }
}

/// Append the active-tab entries of a side to `out`.
fn side_tab_entries_into(side: &Option<DockSide>, root: DockRoot, out: &mut Vec<(String, String)>)
    ensures
        entries_view(final(out)@) == entries_view(old(out)@) + side_tab_entries(side_view(*side), root),
{
    match side {
        Some(s) => {
            let empty: Vec<usize> = Vec::new();
            s.item.collect_tab_entries(root, &empty, out);
        },
        None => {
            assert(entries_view(out@) + Seq::<(Seq<char>, Seq<char>)>::empty() == entries_view(out@));
        },
    }
}

/// The active-tab entries of the given roots.
fn parts_tab_entries(center: &DockItem, left: &Option<DockSide>, right: &Option<DockSide>, bottom: &Option<DockSide>) -> (r: Vec<(String, String)>)
    ensures
        entries_view(r@) == layout_tab_entries((center@, side_view(*left), side_view(*right), side_view(*bottom))),
{
    let mut out: Vec<(String, String)> = Vec::new();
    let empty: Vec<usize> = Vec::new();
    assert(entries_view(out@) == Seq::<(Seq<char>, Seq<char>)>::empty());
    center.collect_tab_entries(DockRoot::Center, &empty, &mut out);
    assert(Seq::<(Seq<char>, Seq<char>)>::empty() + tab_entries(center@, DockRoot::Center, empty@)
        == tab_entries(center@, DockRoot::Center, Seq::empty()));
    side_tab_entries_into(left, DockRoot::Left, &mut out);
    side_tab_entries_into(right, DockRoot::Right, &mut out);
    side_tab_entries_into(bottom, DockRoot::Bottom, &mut out);
    out
}

/// Whether two entry lists are equal.
fn entries_equal(a: &Vec<(String, String)>, b: &Vec<(String, String)>) -> (r: bool)
    ensures
        r == (entries_view(a@) == entries_view(b@)),
{
    if a.len() != b.len() {
        assert(entries_view(a@).len() != entries_view(b@).len());
        return false;
    }
    let mut i: usize = 0;
    while i < a.len()
        invariant
            i <= a.len(),
            a.len() == b.len(),
            forall|j: int| 0 <= j < i ==> a@[j].0@ == b@[j].0@ && a@[j].1@ == b@[j].1@,
        decreases a.len() - i,
    {
        if !str_eq(a[i].0.as_str(), b[i].0.as_str()) || !str_eq(a[i].1.as_str(), b[i].1.as_str()) {
            assert(entries_view(a@)[i as int] != entries_view(b@)[i as int]);
            return false;
        }
        i = i + 1;
    }
    assert(entries_view(a@) =~= entries_view(b@));
    true
}

/// Whether two optional names are equal.
fn names_equal(a: &Option<String>, b: &Option<String>) -> (r: bool)
    ensures
        r == (name_view(*a) == name_view(*b)),
{
    match (a, b) {
        (Some(x), Some(y)) => str_eq(x.as_str(), y.as_str()),
        (None, None) => true,
        _ => false,
    }
}

/// An in-memory name-based layout that also keeps each tab group's active panel, keyed by
/// [`split_key`], and the zoomed panel.
///
/// It holds no panel instances: it restores one dock's own state onto its live panels.
#[derive(Debug)]
pub struct DockNamedLayout {
    pub topology: DockTopologyByName,
    pub active_tabs: Vec<(String, String)>,
    pub zoomed_panel: Option<String>,
}

impl DockNamedLayout {
    /// Return every panel name captured by this layout, in normalized traversal order.
    pub fn panel_names<F: Fn(usize) -> TileMeta + Copy>(&self, missing: F) -> (r: Vec<String>)
        requires
            fallback_callable(missing),
        ensures
            forall|g: spec_fn(usize) -> TileMeta| fallback_agrees(missing, g) ==> names_view(r@) == layout_names(#[trigger] normalized_layout(self.topology@, g)),
    {
        self.topology.panel_names(missing)
    }
}

impl DockArea {
    /// Capture this dock's topology, active tabs and zoom by name, without panel instances.
    pub fn named_layout<F: Fn(usize) -> TileMeta + Copy>(&self, missing: F) -> (r: DockNamedLayout)
        requires
            fallback_callable(missing),
        ensures
            forall|g: spec_fn(usize) -> TileMeta| #![trigger fallback_agrees(missing, g)] fallback_agrees(missing, g) ==>
                r.topology@ == normalized_layout(topo_layout_of(layout_of(*self)), g),
            entries_view(r.active_tabs@) == layout_tab_entries(layout_of(*self)),
            name_view(r.zoomed_panel) == name_view(self.zoomed_panel),
    {
        DockNamedLayout {
            topology: topology_for_parts(&self.center, &self.left, &self.right, &self.bottom, missing),
            active_tabs: parts_tab_entries(&self.center, &self.left, &self.right, &self.bottom),
            zoomed_panel: match &self.zoomed_panel {
                Some(n) => Some(n.clone()),
                None => None,
            },
        }
    }

    /// Restore an exact name-based layout onto this dock's live panels and `additional`
    /// ones, with its active tabs and zoom.
    ///
    /// Panels the layout does not name are dropped; named panels keep their live identity;
    /// names no live panel has are skipped. The recorded zoom is kept while its panel is
    /// present. Returns `true`, announcing one layout change, only when the topology, the
    /// active tabs or the zoom change, or the tree held duplicates; otherwise nothing changes.
    ///
    /// A change records its lifecycle calls in [`DockArea::panel_calls`] (see
    /// [`replacement_calls`]): a zoom that changes is closed first; each dropped panel is
    /// told it is inactive and then removed, once; each new panel is told it joined; a new
    /// zoom is opened last.
    pub fn apply_named_layout<F: Fn(usize) -> TileMeta + Copy>(&mut self, layout: &DockNamedLayout, additional: Vec<DockPanel>, missing: F) -> (r: bool)
        requires
            fallback_callable(missing),
            old(self).pinned_leading_panels@.len() < usize::MAX,
        ensures
            !r ==> *final(self) == *old(self),
            r ==> final(self).panel_calls@ == old(self).panel_calls@ + replacement_calls(
                unique_of(layout_of(*old(self))),
                unique_of(layout_of(*final(self))),
                zoomed_panel_in(layout_of(*old(self)), old(self).zoomed_panel),
                zoomed_panel_in(layout_of(*final(self)), final(self).zoomed_panel),
            ),
            final(self).id == old(self).id,
            final(self).version == old(self).version,
            final(self).enable_split_drop == old(self).enable_split_drop,
            final(self).layout_editable == old(self).layout_editable,
            final(self).detach_allowed == old(self).detach_allowed,
            final(self).close_allowed == old(self).close_allowed,
            final(self).pinned_leading_panels == old(self).pinned_leading_panels,
            forall|g: spec_fn(usize) -> TileMeta| #![trigger fallback_agrees(missing, g)] fallback_agrees(missing, g) ==> {
                let next = named_applied(
                    layout_of(*old(self)),
                    layout.topology@,
                    entries_view(layout.active_tabs@),
                    additional@,
                    old(self).pinned_leading_panels@,
                    g,
                );
                let zoom = kept_zoom(next, name_view(layout.zoomed_panel));
                &&& r == !(same_topology(
                    normalized_layout(topo_layout_of(layout_of(*old(self))), g),
                    normalized_layout(topo_layout_of(next), g),
                    g,
                ) && layout_tab_entries(layout_of(*old(self))) == layout_tab_entries(next)
                    && name_view(old(self).zoomed_panel) == zoom
                    && !has_duplicates(layout_of(*old(self))))
                &&& r ==> layout_of(*final(self)) == next && name_view(final(self).zoomed_panel) == zoom
                    && final(self).events@ == old(self).events@.push(DockEvent::LayoutChanged)
            },
    {
        let (center, left, right, bottom) = self.resolve_named_topology(&layout.topology, additional, false, missing);
        let empty: Vec<usize> = Vec::new();
        let mut center = center.with_named_active(DockRoot::Center, &empty, &layout.active_tabs);
        let mut left = side_named_active(left, DockRoot::Left, &layout.active_tabs);
        let mut right = side_named_active(right, DockRoot::Right, &layout.active_tabs);
        let mut bottom = side_named_active(bottom, DockRoot::Bottom, &layout.active_tabs);
        let ghost av = (center@, side_view(left), side_view(right), side_view(bottom));
        let _ = center.enforce_pinned_leading(&self.pinned_leading_panels);
        let _ = side_enforce(&mut left, &self.pinned_leading_panels);
        let _ = side_enforce(&mut right, &self.pinned_leading_panels);
        let _ = side_enforce(&mut bottom, &self.pinned_leading_panels);
        proof {
            assert((center@, side_view(left), side_view(right), side_view(bottom)) == layout_enforced(av, self.pinned_leading_panels@).0);
        }
        let zoomed = match &layout.zoomed_panel {
            Some(n) => match find_in_parts(&center, &left, &right, &bottom, n.as_str()) {
                Some(_) => Some(n.clone()),
                None => None,
            },
            None => None,
        };
        let next_topology = topology_for_parts(&center, &left, &right, &bottom, missing);
        let next_tabs = parts_tab_entries(&center, &left, &right, &bottom);
        let current = self.named_layout(missing);
        let same = current.topology.same_as(&next_topology, missing)
            && entries_equal(&current.active_tabs, &next_tabs)
            && names_equal(&current.zoomed_panel, &zoomed);
        if same && !self.has_duplicate_panel_occurrences() {
            return false;
        }
        let prev = self.unique_panels();
        let prev_zoomed = self.zoomed_live_panel();
        self.center = center;
        self.left = left;
        self.right = right;
        self.bottom = bottom;
        self.zoomed_panel = zoomed;
        let next = self.unique_panels();
        let next_zoomed = self.zoomed_live_panel();
        push_replacement_calls(&mut self.panel_calls, &prev, &next, &prev_zoomed, &next_zoomed);
        self.events.push(DockEvent::LayoutChanged);
        true
    }
}

} // verus!
