//! Sharing a dock layout by panel names: the topology of a live dock, and applying a shared
//! topology onto the panels a dock owns.

use vstd::prelude::*;

use super::area::{
    layout_enforced, layout_of, lemma_layout_same, side_enforce, side_tree, DockArea, DockEvent,
    DockSide, LayoutValue, SideValue, side_view, same_prefs,
};
use super::item::{
    add_unique, fallback_agrees, fallback_callable, push_all_unique, lemma_take_step, lemma_view_items, panels_of,
    panels_of_all, repaired, str_eq, view_items, DockItem, DockNode, DockPanel, TileMeta,
    lemma_panels_of_all_take,
};
use super::lifecycle::{push_replacement_calls, replacement_calls, zoomed_panel_in};
use super::resolve::{resolved, resolver_pool, topo_of, unused, NamedPanelResolver};
use super::topology::{
    names_view, normalized_layout, same_topology, DockTopologyByName, DockTopologySide, TopoLayout,
    TopoSide, view_side,
};

verus! {

/// Bit pattern of 112.0, the smallest width of a left or right dock.
pub const DOCK_MIN_SIDE_SIZE_BITS: u32 = 0x42E0_0000;

/// Bit pattern of 104.0, the smallest height of a bottom dock.
pub const DOCK_MIN_BOTTOM_SIZE_BITS: u32 = 0x42D0_0000;

/// The larger of two non-negative single-precision values, by bit pattern: for such values
/// the numeric order is the order of their bit patterns.
pub open spec fn larger_bits(a: u32, b: u32) -> u32 {
    if a >= b { a } else { b }
}

/// Every panel occurrence of a layout, in center, left, right, bottom order.
pub open spec fn occurrences_of(l: LayoutValue) -> Seq<DockPanel> {
    panels_of(l.0) + panels_of(side_tree(l.1)) + panels_of(side_tree(l.2)) + panels_of(side_tree(l.3))
}

/// The distinct panel identities of a layout, in traversal order.
pub open spec fn unique_of(l: LayoutValue) -> Seq<DockPanel> {
    add_unique(Seq::empty(), occurrences_of(l))
}

/// Whether two panels of `s` carry the same name.
pub open spec fn names_repeat(s: Seq<DockPanel>) -> bool {
    exists|i: int, j: int| 0 <= i < j < s.len() && #[trigger] s[i].name@ == #[trigger] s[j].name@
}

/// Whether a layout repeats a panel identity or a stable panel name.
pub open spec fn has_duplicates(l: LayoutValue) -> bool {
    occurrences_of(l).len() != unique_of(l).len() || names_repeat(unique_of(l))
}

/// The names of the active tab of every tab group of a node, in traversal order.
pub open spec fn active_names(node: DockNode) -> Seq<Seq<char>>
    decreases node,
{
    match node {
        DockNode::Tabs { items, active_ix } => {
            let i = if active_ix < items.len() { active_ix as int } else { items.len() - 1 };
            if items.len() > 0 { seq![items[i].name@] } else { Seq::empty() }
        },
        DockNode::Split { children, .. } => active_names_all(children),
        _ => Seq::empty(),
    }
}

/// The active tab names of a sequence of nodes, in order.
pub open spec fn active_names_all(children: Seq<DockNode>) -> Seq<Seq<char>>
    decreases children,
{
    if children.len() == 0 {
        Seq::empty()
    } else {
        active_names_all(children.drop_last()) + active_names(children.last())
    }
}

/// The active tab names of every root of a layout.
pub open spec fn layout_active_names(l: LayoutValue) -> Seq<Seq<char>> {
    active_names(l.0) + active_names(side_tree(l.1)) + active_names(side_tree(l.2)) + active_names(side_tree(l.3))
}

/// The first index of `items` whose panel carries one of `names`, or the length.
pub open spec fn first_active_index(items: Seq<DockPanel>, names: Seq<Seq<char>>) -> int
    decreases items.len(),
{
    if items.len() == 0 {
        0
    } else if names.contains(items[0].name@) {
        0
    } else {
        1 + first_active_index(items.drop_first(), names)
    }
}

/// A node whose tab groups activate their first panel that was active before, if any.
pub open spec fn with_active_from(node: DockNode, names: Seq<Seq<char>>) -> DockNode
    decreases node,
{
    match node {
        DockNode::Tabs { items, active_ix } => {
            let i = first_active_index(items, names);
            if i < items.len() { DockNode::Tabs { items, active_ix: i as nat } } else { node }
        },
        DockNode::Split { horizontal, children, sizes } => DockNode::Split {
            horizontal,
            children: with_active_from_all(children, names),
            sizes,
        },
        _ => node,
    }
}

/// Each node of a sequence with its tab groups reactivated.
pub open spec fn with_active_from_all(children: Seq<DockNode>, names: Seq<Seq<char>>) -> Seq<DockNode>
    decreases children,
{
    if children.len() == 0 {
        Seq::empty()
    } else {
        with_active_from_all(children.drop_last(), names).push(with_active_from(children.last(), names))
    }
}

/// A side with its tree's tab groups reactivated.
pub open spec fn side_with_active(s: Option<SideValue>, names: Seq<Seq<char>>) -> Option<SideValue> {
    match s {
        Some(v) => Some((with_active_from(v.0, names), v.1, v.2)),
        None => None,
    }
}

/// The topology of a layout, before normalization.
pub open spec fn topo_layout_of(l: LayoutValue) -> TopoLayout {
    let side = |s: Option<SideValue>| match s {
        Some(v) => Some(TopoSide { item: topo_of(v.0), size: v.1, open: v.2 }),
        None => None,
    };
    TopoLayout { center: topo_of(l.0), left: side(l.1), right: side(l.2), bottom: side(l.3) }
}

/// A resolved side: its tree resolved from the pool, dropped when empty, its size raised to
/// `min`.
pub open spec fn resolved_side(s: Option<TopoSide>, pool: Seq<DockPanel>, marks: Seq<bool>, min: u32, d: spec_fn(usize) -> TileMeta) -> (Option<SideValue>, Seq<bool>) {
    match s {
        None => (None, marks),
        Some(side) => {
            let (n, m2) = resolved(side.item, pool, marks, d);
            (if n is Empty { None } else { Some((n, larger_bits(side.size, min), side.open)) }, m2)
        },
    }
}

/// A shared topology resolved against the panels of a layout and supplied panels: each
/// requested name takes the first live identity with that name, once; unrequested panels
/// are appended to the center when `retain` is set.
pub open spec fn resolved_layout(l: LayoutValue, t: TopoLayout, additional: Seq<DockPanel>, retain: bool, d: spec_fn(usize) -> TileMeta) -> LayoutValue {
    let nt = normalized_layout(t, d);
    let pool = resolver_pool(unique_of(l) + additional);
    let marks0 = Seq::new(pool.len(), |k: int| false);
    let (c, m1) = resolved(nt.center, pool, marks0, d);
    let (left, m2) = resolved_side(nt.left, pool, m1, DOCK_MIN_SIDE_SIZE_BITS, d);
    let (right, m3) = resolved_side(nt.right, pool, m2, DOCK_MIN_SIDE_SIZE_BITS, d);
    let (bottom, m4) = resolved_side(nt.bottom, pool, m3, DOCK_MIN_BOTTOM_SIZE_BITS, d);
    (if retain { repaired(c, unused(pool, m4), d) } else { c }, left, right, bottom)
}

/// The layout applying a shared topology installs: resolved, previously active panels
/// reactivated, and pinned panels leading.
pub open spec fn applied_layout(l: LayoutValue, t: TopoLayout, additional: Seq<DockPanel>, pinned: Seq<String>, d: spec_fn(usize) -> TileMeta) -> LayoutValue {
    let r = resolved_layout(l, t, additional, true, d);
    let names = layout_active_names(l);
    let a = (with_active_from(r.0, names), side_with_active(r.1, names), side_with_active(r.2, names), side_with_active(r.3, names));
    layout_enforced(a, pinned).0
}

proof fn lemma_add_unique_add(acc: Seq<DockPanel>, s: Seq<DockPanel>, t: Seq<DockPanel>)
    ensures
        add_unique(acc, s + t) == add_unique(add_unique(acc, s), t),
    decreases t.len(),
{
    if t.len() == 0 {
        assert(s + t == s);
    } else {
        lemma_add_unique_add(acc, s, t.drop_last());
        assert((s + t).drop_last() == s + t.drop_last());
        assert((s + t).last() == t.last());
    }
}

impl DockItem {
    /// Append every panel occurrence of this node to `out`, in traversal order.
    pub fn collect_occurrences(&self, out: &mut Vec<DockPanel>)
        ensures
            final(out)@ == old(out)@ + panels_of(self@),
        decreases self,
    {
        match self {
            DockItem::Empty => {
                assert(old(out)@ + Seq::<DockPanel>::empty() == old(out)@);
            },
            DockItem::Panel(p) => {
                out.push(p.share());
                assert(old(out)@.push(*p) == old(out)@ + seq![*p]);
            },
            DockItem::Tabs { items, .. } | DockItem::Tiles { items, .. } => {
                let ghost start = out@;
                let mut i: usize = 0;
                while i < items.len()
                    invariant
                        i <= items.len(),
                        out@ == start + items@.take(i as int),
                    decreases items.len() - i,
                {
                    out.push(items[i].share());
                    assert(items@.take(i + 1) == items@.take(i as int).push(items@[i as int]));
                    i = i + 1;
                }
                assert(items@.take(items.len() as int) == items@);
            },
            DockItem::Split { items, .. } => {
                let ghost start = out@;
                let ghost v = view_items(items@);
                proof { lemma_view_items(items@); }
                let mut i: usize = 0;
                #[verifier::loop_isolation(false)]
                while i < items.len()
                    invariant
                        i <= items.len(),
                        out@ == start + panels_of_all(v.take(i as int)),
                    decreases items.len() - i,
                {
                    proof { lemma_panels_of_all_take(v, i as int); }
                    items[i].collect_occurrences(out);
                    i = i + 1;
                }
                assert(v.take(items.len() as int) == v);
            },
        }
    }

    /// Append the name of the active tab of every tab group of this node to `out`.
    pub fn collect_active_names(&self, out: &mut Vec<String>)
        ensures
            names_view(final(out)@) == names_view(old(out)@) + active_names(self@),
        decreases self,
    {
        match self {
            DockItem::Tabs { items, active_ix } => {
                if items.len() > 0 {
                    let i = if *active_ix < items.len() { *active_ix } else { items.len() - 1 };
                    let ghost prev = out@;
                    out.push(items[i].name.clone());
                    assert(names_view(out@) =~= names_view(prev) + seq![items@[i as int].name@]);
                } else {
                    assert(names_view(out@) + Seq::<Seq<char>>::empty() == names_view(out@));
                }
            },
            DockItem::Split { items, .. } => {
                let ghost start = names_view(out@);
                let ghost v = view_items(items@);
                proof { lemma_view_items(items@); }
                let mut i: usize = 0;
                #[verifier::loop_isolation(false)]
                while i < items.len()
                    invariant
                        i <= items.len(),
                        names_view(out@) == start + active_names_all(v.take(i as int)),
                    decreases items.len() - i,
                {
                    proof {
                        assert(v.take(i + 1).drop_last() == v.take(i as int));
                        assert(v.take(i + 1).last() == v[i as int]);
                    }
                    items[i].collect_active_names(out);
                    proof {
                        assert(start + active_names_all(v.take(i as int)) + active_names(v[i as int])
                            == start + (active_names_all(v.take(i as int)) + active_names(v[i as int])));
                    }
                    i = i + 1;
                }
                assert(v.take(items.len() as int) == v);
            },
            _ => {
                assert(names_view(out@) + Seq::<Seq<char>>::empty() == names_view(out@));
            },
        }
    }

    /// Activate, in every tab group, its first panel named in `names`, if any.
    pub fn with_active_names(self, names: &Vec<String>) -> (r: DockItem)
        ensures
            r@ == with_active_from(self@, names_view(names@)),
        decreases self,
    {
        match self {
            DockItem::Tabs { items, active_ix } => {
                let ghost nv = names_view(names@);
                let mut i: usize = 0;
                assert(items@.skip(0) == items@);
                #[verifier::loop_isolation(false)]
                while i < items.len()
                    invariant
                        i <= items.len(),
                        nv == names_view(names@),
                        first_active_index(items@, nv) == i + first_active_index(items@.skip(i as int), nv),
                    decreases items.len() - i,
                {
                    assert(items@.skip(i as int).drop_first() == items@.skip(i + 1));
                    assert(items@.skip(i as int)[0] == items@[i as int]);
                    let named = name_listed(items[i].name.as_str(), names);
                    if named {
                        assert(first_active_index(items@.skip(i as int), nv) == 0);
                        return DockItem::Tabs { items, active_ix: i };
                    }
                    i = i + 1;
                }
                DockItem::Tabs { items, active_ix }
            },
            DockItem::Split { horizontal, items, sizes } => {
                let ghost orig = items@;
                let ghost vorig = view_items(orig);
                proof { lemma_view_items(orig); }
                let mut items = items;
                let mut out: Vec<DockItem> = Vec::new();
                let mut i: usize = 0;
                #[verifier::loop_isolation(false)]
                while i < items.len()
                    invariant
                        i <= items.len(),
                        items@.len() == orig.len(),
                        forall|j: int| i <= j < orig.len() ==> items@[j] == orig[j],
                        view_items(out@) == with_active_from_all(vorig.take(i as int), names_view(names@)),
                    decreases items.len() - i,
                {
                    let mut child = DockItem::Empty;
                    std::mem::swap(&mut child, &mut items[i]);
                    assert(child == orig[i as int]);
                    let next = child.with_active_names(names);
                    proof {
                        lemma_take_step(vorig, i as int);
                        assert(out@.push(next).drop_last() == out@);
                    }
                    out.push(next);
                    i = i + 1;
                }
                assert(vorig.take(orig.len() as int) == vorig);
                DockItem::Split { horizontal, items: out, sizes }
            },
            other => other,
        }
    }
}

/// Whether `name` is one of `names`.
fn name_listed(name: &str, names: &Vec<String>) -> (r: bool)
    ensures
        r == names_view(names@).contains(name@),
{
    let mut k: usize = 0;
    while k < names.len()
        invariant
            k <= names.len(),
            forall|j: int| 0 <= j < k ==> names@[j]@ != name@,
        decreases names.len() - k,
    {
        if str_eq(names[k].as_str(), name) {
            assert(names_view(names@)[k as int] == name@);
            return true;
        }
        k = k + 1;
    }
    proof {
        if names_view(names@).contains(name@) {
            let j = names_view(names@).index_of(name@);
            assert(names@[j]@ == name@);
        }
    }
    false
}


/// Append every panel occurrence of a side to `out`.
fn side_occurrences(side: &Option<DockSide>, out: &mut Vec<DockPanel>)
    ensures
        final(out)@ == old(out)@ + panels_of(side_tree(side_view(*side))),
{
    match side {
        Some(s) => s.item.collect_occurrences(out),
        None => {
            assert(old(out)@ + Seq::<DockPanel>::empty() == old(out)@);
        },
    }
}

/// Append the active tab names of a side to `out`.
fn side_active_names(side: &Option<DockSide>, out: &mut Vec<String>)
    ensures
        names_view(final(out)@) == names_view(old(out)@) + super::shared::active_names(side_tree(side_view(*side))),
{
    match side {
        Some(s) => s.item.collect_active_names(out),
        None => {
            assert(names_view(out@) + Seq::<Seq<char>>::empty() == names_view(out@));
        },
    }
}

/// A side with its tab groups reactivated from `names`.
fn side_with_active_names(side: Option<DockSide>, names: &Vec<String>) -> (r: Option<DockSide>)
    ensures
        side_view(r) == side_with_active(side_view(side), names_view(names@)),
{
    match side {
        Some(s) => Some(DockSide { item: s.item.with_active_names(names), size: s.size, open: s.open }),
        None => None,
    }
}

/// The topology of a side.
fn side_topology(side: &Option<DockSide>) -> (r: Option<DockTopologySide>)
    ensures
        view_side(r) == (match side_view(*side) {
            Some(v) => Some(TopoSide { item: topo_of(v.0), size: v.1, open: v.2 }),
            None => None,
        }),
{
    match side {
        Some(s) => Some(DockTopologySide { item: s.item.topology_by_name(), size: s.size, open: s.open }),
        None => None,
    }
}

/// The normalized topology of the given roots.
pub(crate) fn topology_for_parts<F: Fn(usize) -> TileMeta + Copy>(center: &DockItem, left: &Option<DockSide>, right: &Option<DockSide>, bottom: &Option<DockSide>, missing: F) -> (r: DockTopologyByName)
    requires
        fallback_callable(missing),
    ensures
        forall|g: spec_fn(usize) -> TileMeta| #![trigger fallback_agrees(missing, g)] fallback_agrees(missing, g) ==>
            r@ == normalized_layout(topo_layout_of((center@, side_view(*left), side_view(*right), side_view(*bottom))), g),
{
    let raw = DockTopologyByName {
        center: center.topology_by_name(),
        left: side_topology(left),
        right: side_topology(right),
        bottom: side_topology(bottom),
    };
    raw.normalized(missing)
}

/// Resolve one side of a shared topology.
fn resolve_side<F: Fn(usize) -> TileMeta + Copy>(resolver: &mut NamedPanelResolver, side: &Option<DockTopologySide>, min: u32, missing: F) -> (r: Option<DockSide>)
    requires
        old(resolver).wf(),
        fallback_callable(missing),
    ensures
        final(resolver).wf(),
        final(resolver).pool() == old(resolver).pool(),
        forall|g: spec_fn(usize) -> TileMeta| #![trigger fallback_agrees(missing, g)] fallback_agrees(missing, g) ==>
            (side_view(r), final(resolver).marks()) == resolved_side(view_side(*side), old(resolver).pool(), old(resolver).marks(), min, g),
{
    match side {
        None => None,
        Some(s) => {
            let ghost p0 = resolver.pool();
            let ghost m0 = resolver.marks();
            let item = resolver.resolve_node(&s.item, missing);
            proof {
                assert forall|g: spec_fn(usize) -> TileMeta| #![trigger fallback_agrees(missing, g)] fallback_agrees(missing, g) implies
                    (item@, resolver.marks()) == resolved(s.item@, p0, m0, g) by {}
            }
            if item.is_empty() {
                None
            } else {
                let size = if s.size >= min { s.size } else { min };
                Some(DockSide { item, size, open: s.open })
            }
        },
    }
}

/// Every panel occurrence of a tree, in tree order.
pub(crate) fn collect_occurrences_of(item: &DockItem) -> (r: Vec<DockPanel>)
    ensures
        r@ == panels_of(item@),
{
    let mut out: Vec<DockPanel> = Vec::new();
    item.collect_occurrences(&mut out);
    assert(Seq::<DockPanel>::empty() + panels_of(item@) == panels_of(item@));
    out
}

impl DockArea {
    /// Every panel occurrence, in center, left, right, bottom tree order.
    pub fn occurrences(&self) -> (r: Vec<DockPanel>)
        ensures
            r@ == occurrences_of(layout_of(*self)),
    {
        let mut out: Vec<DockPanel> = Vec::new();
        self.center.collect_occurrences(&mut out);
        assert(Seq::<DockPanel>::empty() + panels_of(self.center@) == panels_of(self.center@));
        side_occurrences(&self.left, &mut out);
        side_occurrences(&self.right, &mut out);
        side_occurrences(&self.bottom, &mut out);
        out
    }

    /// Every distinct live panel identity, in tree order.
    pub fn unique_panels(&self) -> (r: Vec<DockPanel>)
        ensures
            r@ == unique_of(layout_of(*self)),
    {
        let occ = self.occurrences();
        let mut out: Vec<DockPanel> = Vec::new();
        push_all_unique(&mut out, &occ);
        out
    }

    /// Whether the tree repeats a panel identity or a stable panel name.
    pub fn has_duplicate_panel_occurrences(&self) -> (r: bool)
        ensures
            r == has_duplicates(layout_of(*self)),
    {
        let occ = self.occurrences();
        let mut unique: Vec<DockPanel> = Vec::new();
        assert(unique@ == Seq::<DockPanel>::empty());
        push_all_unique(&mut unique, &occ);
        assert(unique@ == unique_of(layout_of(*self)));
        if occ.len() != unique.len() {
            return true;
        }
        let mut i: usize = 0;
        while i < unique.len()
            invariant
                i <= unique.len(),
                unique@ == unique_of(layout_of(*self)),
                occ@.len() == unique@.len(),
                occ@ == occurrences_of(layout_of(*self)),
                forall|a: int, b: int| 0 <= a < i && a < b < unique@.len() ==> unique@[a].name@ != unique@[b].name@,
            decreases unique.len() - i,
        {
            let mut j: usize = i + 1;
            while j < unique.len()
                invariant
                    i < j <= unique.len(),
                    unique@ == unique_of(layout_of(*self)),
                    forall|a: int, b: int| 0 <= a < i && a < b < unique@.len() ==> unique@[a].name@ != unique@[b].name@,
                    forall|b: int| i < b < j ==> unique@[i as int].name@ != unique@[b].name@,
                decreases unique.len() - j,
            {
                if str_eq(unique[i].name.as_str(), unique[j].name.as_str()) {
                    assert(names_repeat(unique@)) by {
                        assert(unique@[i as int].name@ == unique@[j as int].name@);
                    }
                    return true;
                }
                j = j + 1;
            }
            i = i + 1;
        }
        false
    }

    /// The names of the active tab of every tab group, roots in center, left, right,
    /// bottom order.
    pub fn active_panel_names(&self) -> (r: Vec<String>)
        ensures
            names_view(r@) == layout_active_names(layout_of(*self)),
    {
        let mut out: Vec<String> = Vec::new();
        assert(names_view(out@) =~= Seq::<Seq<char>>::empty());
        self.center.collect_active_names(&mut out);
        assert(Seq::<Seq<char>>::empty() + active_names(self.center@) == active_names(self.center@));
        side_active_names(&self.left, &mut out);
        side_active_names(&self.right, &mut out);
        side_active_names(&self.bottom, &mut out);
        out
    }

    /// The canonical name-based topology of this dock: payload-free panel names,
    /// geometry, sides and sizes, normalized.
    pub fn topology_by_name<F: Fn(usize) -> TileMeta + Copy>(&self, missing: F) -> (r: DockTopologyByName)
        requires
            fallback_callable(missing),
        ensures
            forall|g: spec_fn(usize) -> TileMeta| #![trigger fallback_agrees(missing, g)] fallback_agrees(missing, g) ==>
                r@ == normalized_layout(topo_layout_of(layout_of(*self)), g),
    {
        topology_for_parts(&self.center, &self.left, &self.right, &self.bottom, missing)
    }

    /// Resolve a shared topology against this dock's panels and `additional` ones (see
    /// [`resolved_layout`]).
    pub fn resolve_named_topology<F: Fn(usize) -> TileMeta + Copy>(&self, topology: &DockTopologyByName, additional: Vec<DockPanel>, retain_unmentioned: bool, missing: F) -> (r: (DockItem, Option<DockSide>, Option<DockSide>, Option<DockSide>))
        requires
            fallback_callable(missing),
        ensures
            forall|g: spec_fn(usize) -> TileMeta| #![trigger fallback_agrees(missing, g)] fallback_agrees(missing, g) ==>
                (r.0@, side_view(r.1), side_view(r.2), side_view(r.3)) == resolved_layout(layout_of(*self), topology@, additional@, retain_unmentioned, g),
    {
        let t = topology.normalized(missing);
        let current = self.unique_panels();
        let mut resolver = NamedPanelResolver::new(current, additional);
        let ghost pool = resolver.pool();
        let ghost m0 = resolver.marks();
        let mut center = resolver.resolve_node(&t.center, missing);
        let ghost m1 = resolver.marks();
        let left = resolve_side(&mut resolver, &t.left, DOCK_MIN_SIDE_SIZE_BITS, missing);
        let ghost m2 = resolver.marks();
        let right = resolve_side(&mut resolver, &t.right, DOCK_MIN_SIDE_SIZE_BITS, missing);
        let ghost m3 = resolver.marks();
        let bottom = resolve_side(&mut resolver, &t.bottom, DOCK_MIN_BOTTOM_SIZE_BITS, missing);
        let ghost c0 = center@;
        if retain_unmentioned {
            let rest = resolver.remaining();
            center.append_repaired_panels(rest, missing);
        }
        proof {
            assert forall|g: spec_fn(usize) -> TileMeta| #![trigger fallback_agrees(missing, g)] fallback_agrees(missing, g) implies
                (center@, side_view(left), side_view(right), side_view(bottom)) == resolved_layout(layout_of(*self), topology@, additional@, retain_unmentioned, g) by {
                assert(t@ == normalized_layout(topology@, g));
                assert((c0, m1) == resolved(t.center@, pool, m0, g));
            }
        }
        (center, left, right, bottom)
    }

    /// Apply a shared topology onto this dock's panels.
    ///
    /// Unknown and repeated names are dropped, each name takes the first live identity
    /// with it among this dock's panels and `additional`, and panels the topology does not
    /// name are appended to the center. Previously active panels stay active where they
    /// survive, and pinned panels lead. Returns `true`, announcing one layout change, only
    /// when the topology changes or the tree held duplicates; otherwise nothing changes.
    ///
    /// A change records its lifecycle calls in [`DockArea::panel_calls`], as a named layout's
    /// replacement does (see [`replacement_calls`]); the zoomed name is kept.
    pub fn apply_topology_by_name<F: Fn(usize) -> TileMeta + Copy>(&mut self, topology: &DockTopologyByName, additional: Vec<DockPanel>, missing: F) -> (r: bool)
        requires
            fallback_callable(missing),
            old(self).pinned_leading_panels@.len() < usize::MAX,
        ensures
            !r ==> *final(self) == *old(self),
            r ==> final(self).panel_calls@ == old(self).panel_calls@ + replacement_calls(
                unique_of(layout_of(*old(self))),
                unique_of(layout_of(*final(self))),
                zoomed_panel_in(layout_of(*old(self)), old(self).zoomed_panel),
                zoomed_panel_in(layout_of(*final(self)), final(self).zoomed_panel),
            ),
            same_prefs(*old(self), *final(self)),
            forall|g: spec_fn(usize) -> TileMeta| #![trigger fallback_agrees(missing, g)] fallback_agrees(missing, g) ==> {
                let next = applied_layout(layout_of(*old(self)), topology@, additional@, old(self).pinned_leading_panels@, g);
                &&& r == !(same_topology(
                    normalized_layout(topo_layout_of(layout_of(*old(self))), g),
                    normalized_layout(topo_layout_of(next), g),
                    g,
                ) && !has_duplicates(layout_of(*old(self))))
                &&& r ==> layout_of(*final(self)) == next && final(self).events@ == old(self).events@.push(DockEvent::LayoutChanged)
            },
    {
        let active = self.active_panel_names();
        let (center, left, right, bottom) = self.resolve_named_topology(topology, additional, true, missing);
        let ghost rv = (center@, side_view(left), side_view(right), side_view(bottom));
        let mut center = center.with_active_names(&active);
        let mut left = side_with_active_names(left, &active);
        let mut right = side_with_active_names(right, &active);
        let mut bottom = side_with_active_names(bottom, &active);
        let ghost av = (center@, side_view(left), side_view(right), side_view(bottom));
        let _ = center.enforce_pinned_leading(&self.pinned_leading_panels);
        let _ = side_enforce(&mut left, &self.pinned_leading_panels);
        let _ = side_enforce(&mut right, &self.pinned_leading_panels);
        let _ = side_enforce(&mut bottom, &self.pinned_leading_panels);
        proof {
            assert((center@, side_view(left), side_view(right), side_view(bottom)) == layout_enforced(av, self.pinned_leading_panels@).0);
        }
        let next = topology_for_parts(&center, &left, &right, &bottom, missing);
        let current = self.topology_by_name(missing);
        let same = current.same_as(&next, missing);
        if same && !self.has_duplicate_panel_occurrences() {
            return false;
        }
        let prev = self.unique_panels();
        let prev_zoomed = self.zoomed_live_panel();
        self.center = center;
        self.left = left;
        self.right = right;
        self.bottom = bottom;
        let next = self.unique_panels();
        let next_zoomed = self.zoomed_live_panel();
        push_replacement_calls(&mut self.panel_calls, &prev, &next, &prev_zoomed, &next_zoomed);
        self.events.push(DockEvent::LayoutChanged);
        true
    }
}

} // verus!
