//! Edits of one dock node: tab activation and reordering, inserting a dragged panel into a
//! tab group, wrapping a node into a split, and the facts about replacing the node at a path.

use vstd::prelude::*;

use super::item::{lemma_view_items, node_at, replaced_at, view_items, DockItem, DockNode, DockPanel, TileMeta};

verus! {

/// The edge of a slot a panel is split onto.
#[derive(Clone, Copy, Debug, PartialEq, Eq, Structural)]
pub enum DockSplitPlacement {
    Left,
    Right,
    Top,
    Bottom,
}

/// Putting back the node that stands at a path changes nothing.
pub proof fn lemma_replaced_at_same(node: DockNode, path: Seq<usize>, x: DockNode)
    requires
        node_at(node, path) == Some(x),
    ensures
        replaced_at(node, path, x) == node,
    decreases path.len(),
{
    if path.len() > 0 {
        match node {
            DockNode::Split { horizontal, children, sizes } => {
                lemma_replaced_at_same(children[path[0] as int], path.drop_first(), x);
                assert(children.update(path[0] as int, children[path[0] as int]) =~= children);
            },
            _ => {},
        }
    }
}

/// After a replacement at a path, the new node stands there.
pub proof fn lemma_node_at_replaced(node: DockNode, path: Seq<usize>, y: DockNode)
    requires
        node_at(node, path) is Some,
    ensures
        node_at(replaced_at(node, path, y), path) == Some(y),
    decreases path.len(),
{
    if path.len() > 0 {
        match node {
            DockNode::Split { horizontal, children, sizes } => {
                lemma_node_at_replaced(children[path[0] as int], path.drop_first(), y);
            },
            _ => {},
        }
    }
}

/// A second replacement at the same path overrides the first.
pub proof fn lemma_replaced_twice(node: DockNode, path: Seq<usize>, y: DockNode, z: DockNode)
    requires
        node_at(node, path) is Some,
    ensures
        replaced_at(replaced_at(node, path, y), path, z) == replaced_at(node, path, z),
    decreases path.len(),
{
    if path.len() > 0 {
        match node {
            DockNode::Split { horizontal, children, sizes } => {
                lemma_replaced_twice(children[path[0] as int], path.drop_first(), y, z);
                let c1 = children.update(path[0] as int, replaced_at(children[path[0] as int], path.drop_first(), y));
                assert(c1.update(path[0] as int, replaced_at(c1[path[0] as int], path.drop_first(), z))
                    =~= children.update(path[0] as int, replaced_at(children[path[0] as int], path.drop_first(), z)));
            },
            _ => {},
        }
    }
}


/// The first index of `s` holding a panel named `n`, or the length when there is none.
pub open spec fn index_named(s: Seq<DockPanel>, n: Seq<char>) -> int
    decreases s.len(),
{
    if s.len() == 0 {
        0
    } else if s[0].name@ == n {
        0
    } else {
        1 + index_named(s.drop_first(), n)
    }
}

/// The first index of `items` holding a panel named `name`.
pub fn position_named(items: &Vec<DockPanel>, name: &str) -> (r: Option<usize>)
    ensures
        match r {
            Some(i) => i == index_named(items@, name@) && i < items@.len(),
            None => index_named(items@, name@) == items@.len(),
        },
{
    let mut i: usize = 0;
    assert(items@.skip(0) == items@);
    while i < items.len()
        invariant
            i <= items.len(),
            index_named(items@, name@) == i + index_named(items@.skip(i as int), name@),
        decreases items.len() - i,
    {
        assert(items@.skip(i as int).drop_first() == items@.skip(i + 1));
        if items[i].is_named(name) {
            return Some(i);
        }
        i = i + 1;
    }
    None
}

/// The largest valid index of a strip of `len` panels, or zero for an empty strip.
pub open spec fn last_index(len: nat) -> nat {
    if len == 0 { 0 } else { (len - 1) as nat }
}

/// A tab group with its active index set to `ix`, clamped into the group; whether that
/// changed it.
pub open spec fn tabs_activated(node: DockNode, ix: nat) -> (DockNode, bool) {
    match node {
        DockNode::Tabs { items, active_ix } => {
            let a = if ix < last_index(items.len()) { ix } else { last_index(items.len()) };
            if active_ix == a {
                (node, false)
            } else {
                (DockNode::Tabs { items, active_ix: a }, true)
            }
        },
        _ => (node, false),
    }
}

/// The index a tab dragged from `from` lands at when dropped before `target`, in a group of
/// `len` tabs without it.
pub open spec fn moved_target(from: nat, target: nat, len: nat) -> nat {
    let t = if from < target { (target - 1) as nat } else { target };
    if t < len { t } else { len }
}

/// A tab group with the panel named `n` moved before `target` and made active; whether the
/// panel was found.
pub open spec fn tab_moved(node: DockNode, n: Seq<char>, target: nat) -> (DockNode, bool) {
    match node {
        DockNode::Tabs { items, .. } => {
            let from = index_named(items, n);
            if from < items.len() {
                let rest = items.remove(from);
                let t = moved_target(from as nat, target, rest.len());
                (DockNode::Tabs { items: rest.insert(t as int, items[from]), active_ix: t }, true)
            } else {
                (node, false)
            }
        },
        _ => (node, false),
    }
}

/// A node with a dragged panel dropped into it: an empty node becomes the panel, a panel
/// becomes a group with the dropped panel active, and a tab group takes it at `target`
/// (clamped) as its active tab. Splits and tiles refuse it.
pub open spec fn tab_inserted(node: DockNode, target: nat, p: DockPanel) -> (DockNode, bool) {
    match node {
        DockNode::Empty => (DockNode::Panel(p), true),
        DockNode::Panel(existing) => (DockNode::Tabs { items: seq![existing, p], active_ix: 1 }, true),
        DockNode::Tabs { items, .. } => {
            let t = if target < items.len() { target } else { items.len() };
            (DockNode::Tabs { items: items.insert(t as int, p), active_ix: t }, true)
        },
        _ => (node, false),
    }
}

/// A node wrapped into a two-slot split with `p` on the side `placement` names; an empty
/// node becomes the panel.
pub open spec fn split_with(node: DockNode, placement: DockSplitPlacement, p: DockPanel) -> DockNode {
    if node is Empty {
        DockNode::Panel(p)
    } else {
        let np = DockNode::Panel(p);
        match placement {
            DockSplitPlacement::Left => DockNode::Split { horizontal: true, children: seq![np, node], sizes: Seq::empty() },
            DockSplitPlacement::Right => DockNode::Split { horizontal: true, children: seq![node, np], sizes: Seq::empty() },
            DockSplitPlacement::Top => DockNode::Split { horizontal: false, children: seq![np, node], sizes: Seq::empty() },
            DockSplitPlacement::Bottom => DockNode::Split { horizontal: false, children: seq![node, np], sizes: Seq::empty() },
        }
    }
}

impl DockItem {
    /// Activate the tab at `ix`, clamped into the group; whether the active tab changed.
    pub fn with_tab_activated(self, ix: usize) -> (r: (DockItem, bool))
        ensures
            (r.0@, r.1) == tabs_activated(self@, ix as nat),
    {
        match self {
            DockItem::Tabs { items, active_ix } => {
                let last = if items.len() == 0 { 0 } else { items.len() - 1 };
                let a = if ix < last { ix } else { last };
                if active_ix == a {
                    (DockItem::Tabs { items, active_ix }, false)
                } else {
                    (DockItem::Tabs { items, active_ix: a }, true)
                }
            },
            other => (other, false),
        }
    }

    /// Move the tab named `name` before `target` and activate it; whether it was found.
    pub fn with_tab_moved(self, name: &str, target: usize) -> (r: (DockItem, bool))
        ensures
            (r.0@, r.1) == tab_moved(self@, name@, target as nat),
    {
        match self {
            DockItem::Tabs { mut items, active_ix } => {
                match position_named(&items, name) {
                    Some(from) => {
                        let ghost orig = items@;
                        let panel = items.remove(from);
                        let t0 = if from < target { target - 1 } else { target };
                        let t = if t0 < items.len() { t0 } else { items.len() };
                        items.insert(t, panel);
                        assert(panel == orig[from as int]);
                        (DockItem::Tabs { items, active_ix: t }, true)
                    },
                    None => (DockItem::Tabs { items, active_ix }, false),
                }
            },
            other => (other, false),
        }
    }

    /// Drop a dragged panel into this node; whether it was accepted.
    pub fn with_tab_inserted(self, target: usize, panel: DockPanel) -> (r: (DockItem, bool))
        ensures
            (r.0@, r.1) == tab_inserted(self@, target as nat, panel),
    {
        match self {
            DockItem::Empty => (DockItem::Panel(panel), true),
            DockItem::Panel(existing) => {
                let mut items = Vec::new();
                items.push(existing);
                items.push(panel);
                assert(items@ =~= seq![existing, panel]);
                (DockItem::Tabs { items, active_ix: 1 }, true)
            },
            DockItem::Tabs { mut items, active_ix: _ } => {
                let t = if target < items.len() { target } else { items.len() };
                items.insert(t, panel);
                (DockItem::Tabs { items, active_ix: t }, true)
            },
            other => (other, false),
        }
    }

    /// Wrap this node into a two-slot split with `panel` on the side `placement` names.
    pub fn split_with_panel(self, placement: DockSplitPlacement, panel: DockPanel) -> (r: DockItem)
        ensures
            r@ == split_with(self@, placement, panel),
    {
        if self.is_empty() {
            return DockItem::Panel(panel);
        }
        let ghost sv = self@;
        let np = DockItem::Panel(panel);
        let (horizontal, first, second) = match placement {
            DockSplitPlacement::Left => (true, np, self),
            DockSplitPlacement::Right => (true, self, np),
            DockSplitPlacement::Top => (false, np, self),
            DockSplitPlacement::Bottom => (false, self, np),
        };
        let mut items = Vec::new();
        items.push(first);
        items.push(second);
        proof {
            lemma_view_items(items@);
            assert(view_items(items@) =~= seq![first@, second@]);
        }
        DockItem::Split { horizontal, items, sizes: Vec::new() }
    }
}

/// Bit pattern of 12.0, the coordinates of padded tile geometry.
pub const DOCK_TILE_PAD_XY_BITS: u32 = 0x4140_0000;

/// Bit pattern of 320.0, the width of padded tile geometry.
pub const DOCK_TILE_PAD_W_BITS: u32 = 0x43A0_0000;

/// Bit pattern of 200.0, the height of padded tile geometry.
pub const DOCK_TILE_PAD_H_BITS: u32 = 0x4348_0000;

/// The geometry given to tiles that gain stored geometry only to reach a later index.
pub open spec fn pad_tile_meta() -> TileMeta {
    TileMeta { x: DOCK_TILE_PAD_XY_BITS, y: DOCK_TILE_PAD_XY_BITS, w: DOCK_TILE_PAD_W_BITS, h: DOCK_TILE_PAD_H_BITS, z_index: 0 }
}

/// Whether a single-precision bit pattern encodes NaN.
pub open spec fn is_nan_bits(b: u32) -> bool {
    b % 0x8000_0000 > 0x7f80_0000
}

/// IEEE equality of two single-precision values given as bit patterns: NaN equals nothing,
/// and the two zeros are equal.
pub open spec fn ieee_eq(a: u32, b: u32) -> bool {
    (a == b && !is_nan_bits(a)) || (a % 0x8000_0000 == 0 && b % 0x8000_0000 == 0)
}

/// Whether two tile geometries are equal as values.
pub open spec fn same_tile_meta(a: TileMeta, b: TileMeta) -> bool {
    ieee_eq(a.x, b.x) && ieee_eq(a.y, b.y) && ieee_eq(a.w, b.w) && ieee_eq(a.h, b.h) && a.z_index == b.z_index
}

/// Stored tile geometry reaching index `ix`: padded with [`pad_tile_meta`] when shorter.
pub open spec fn metas_reaching(metas: Seq<TileMeta>, ix: nat) -> Seq<TileMeta> {
    if metas.len() <= ix {
        metas + Seq::new((ix + 1 - metas.len()) as nat, |i: int| pad_tile_meta())
    } else {
        metas
    }
}

/// A tile group with the geometry of its tile at `ix` set to `meta`, and whether the stored
/// value changed; the padding that reaches `ix` is kept either way. Other nodes are unchanged.
pub open spec fn tile_meta_set(node: DockNode, ix: nat, meta: TileMeta) -> (DockNode, bool) {
    match node {
        DockNode::Tiles { items, metas } => {
            let padded = metas_reaching(metas, ix);
            if same_tile_meta(padded[ix as int], meta) {
                (DockNode::Tiles { items, metas: padded }, false)
            } else {
                (DockNode::Tiles { items, metas: padded.update(ix as int, meta) }, true)
            }
        },
        _ => (node, false),
    }
}

/// IEEE equality of two single-precision values given as bit patterns.
fn bits_eq(a: u32, b: u32) -> (r: bool)
    ensures
        r == ieee_eq(a, b),
{
    let a_mag = a & 0x7fff_ffff;
    let b_mag = b & 0x7fff_ffff;
    assert(a_mag == a % 0x8000_0000) by (bit_vector)
        requires a_mag == a & 0x7fff_ffff;
    assert(b_mag == b % 0x8000_0000) by (bit_vector)
        requires b_mag == b & 0x7fff_ffff;
    (a == b && a_mag <= 0x7f80_0000) || (a_mag == 0 && b_mag == 0)
}

impl DockItem {
    /// Set the geometry of the tile at `ix` of a tile group (see [`tile_meta_set`]).
    pub fn with_tile_meta(self, ix: usize, meta: TileMeta) -> (r: (DockItem, bool))
        requires
            ix < usize::MAX,
        ensures
            (r.0@, r.1) == tile_meta_set(self@, ix as nat, meta),
    {
        match self {
            DockItem::Tiles { items, mut metas } => {
                let ghost orig = metas@;
                if metas.len() <= ix {
                    let pad = TileMeta {
                        x: DOCK_TILE_PAD_XY_BITS,
                        y: DOCK_TILE_PAD_XY_BITS,
                        w: DOCK_TILE_PAD_W_BITS,
                        h: DOCK_TILE_PAD_H_BITS,
                        z_index: 0,
                    };
                    while metas.len() <= ix
                        invariant
                            orig.len() <= metas@.len() <= ix + 1,
                            metas@ == orig + Seq::new((metas@.len() - orig.len()) as nat, |i: int| pad_tile_meta()),
                            pad == pad_tile_meta(),
                        decreases ix + 1 - metas.len(),
                    {
                        let ghost before = metas@;
                        metas.push(pad);
                        assert(metas@ == orig + Seq::new((metas@.len() - orig.len()) as nat, |i: int| pad_tile_meta()));
                    }
                }
                assert(metas@ == metas_reaching(orig, ix as nat));
                let cur = metas[ix];
                let same = bits_eq(cur.x, meta.x) && bits_eq(cur.y, meta.y) && bits_eq(cur.w, meta.w)
                    && bits_eq(cur.h, meta.h) && cur.z_index == meta.z_index;
                if same {
                    (DockItem::Tiles { items, metas }, false)
                } else {
                    metas.set(ix, meta);
                    (DockItem::Tiles { items, metas }, true)
                }
            },
            other => (other, false),
        }
    }
}

/// The child whose size a drag of the handle before child `after_ix` of a split with `len`
/// children sets: the last child for the last handle, else the child before the handle.
pub open spec fn resize_target(len: nat, after_ix: nat) -> nat {
    if after_ix + 1 == len {
        after_ix
    } else {
        (after_ix - 1) as nat
    }
}

/// Split sizes reaching `n` slots: padded with flexible slots when shorter.
pub open spec fn sizes_reaching(sizes: Seq<Option<u32>>, n: nat) -> Seq<Option<u32>> {
    if sizes.len() < n {
        sizes + Seq::new((n - sizes.len()) as nat, |i: int| None::<u32>)
    } else {
        sizes
    }
}

/// A split prepared for a drag of the handle before child `after_ix`: its sizes padded to
/// one slot per child, with the axis, the child whose size the drag sets, and that child's
/// current size. Handles outside the split and nodes that are not splits give nothing.
pub open spec fn split_prepared(node: DockNode, after_ix: nat) -> (DockNode, Option<(bool, nat, Option<u32>)>) {
    match node {
        DockNode::Split { horizontal, children, sizes } => if after_ix == 0 || after_ix >= children.len() {
            (node, None)
        } else {
            let padded = sizes_reaching(sizes, children.len());
            let t = resize_target(children.len(), after_ix);
            (DockNode::Split { horizontal, children, sizes: padded }, Some((horizontal, t, padded[t as int])))
        },
        _ => (node, None),
    }
}

/// A split with the size of slot `ix` fixed to `size`; nodes that are not splits, and slots
/// it has not got, are unchanged.
pub open spec fn split_size_set(node: DockNode, ix: nat, size: u32) -> (DockNode, bool) {
    match node {
        DockNode::Split { horizontal, children, sizes } => if ix < sizes.len() {
            (DockNode::Split { horizontal, children, sizes: sizes.update(ix as int, Some(size)) }, true)
        } else {
            (node, false)
        },
        _ => (node, false),
    }
}

impl DockItem {
    /// Prepare a split for a drag of the handle before child `after_ix` (see
    /// [`split_prepared`]).
    pub fn with_split_prepared(self, after_ix: usize) -> (r: (DockItem, Option<(bool, usize, Option<u32>)>))
        ensures
            r.0@ == split_prepared(self@, after_ix as nat).0,
            match split_prepared(self@, after_ix as nat).1 {
                Some(t) => r.1 == Some((t.0, t.1 as usize, t.2)),
                None => r.1 is None,
            },
    {
        match self {
            DockItem::Split { horizontal, items, mut sizes } => {
                proof { lemma_view_items(items@); }
                let n = items.len();
                if after_ix == 0 || after_ix >= n {
                    return (DockItem::Split { horizontal, items, sizes }, None);
                }
                let ghost orig = sizes@;
                while sizes.len() < n
                    invariant
                        orig.len() <= sizes@.len() <= (if orig.len() < n { n as int } else { orig.len() as int }),
                        sizes@ == orig + Seq::new((sizes@.len() - orig.len()) as nat, |i: int| None::<u32>),
                    decreases n - sizes.len(),
                {
                    sizes.push(None);
                    assert(sizes@ == orig + Seq::new((sizes@.len() - orig.len()) as nat, |i: int| None::<u32>));
                }
                assert(sizes@ == sizes_reaching(orig, n as nat));
                let t = if after_ix + 1 == n { after_ix } else { after_ix - 1 };
                let current = sizes[t];
                (DockItem::Split { horizontal, items, sizes }, Some((horizontal, t, current)))
            },
            other => (other, None),
        }
    }

    /// Fix the size of slot `ix` of a split (see [`split_size_set`]).
    pub fn with_split_size(self, ix: usize, size: u32) -> (r: (DockItem, bool))
        ensures
            (r.0@, r.1) == split_size_set(self@, ix as nat, size),
    {
        match self {
            DockItem::Split { horizontal, items, mut sizes } => {
                if ix < sizes.len() {
                    sizes.set(ix, Some(size));
                    (DockItem::Split { horizontal, items, sizes }, true)
                } else {
                    (DockItem::Split { horizontal, items, sizes }, false)
                }
            },
            other => (other, false),
        }
    }
}

/// The first index holding a name is where `index_named` finds it.
proof fn lemma_index_named_first(s: Seq<DockPanel>, n: Seq<char>, from: int)
    requires
        0 <= from < s.len(),
        s[from].name@ == n,
        forall|j: int| 0 <= j < from ==> #[trigger] s[j].name@ != n,
    ensures
        index_named(s, n) == from,
    decreases from,
{
    if from > 0 {
        assert forall|j: int| 0 <= j < from - 1 implies #[trigger] s.drop_first()[j].name@ != n by {
            assert(s.drop_first()[j] == s[j + 1]);
        }
        assert(s[0].name@ != n);
        lemma_index_named_first(s.drop_first(), n, from - 1);
    }
}

/// Dragging the first tab named `n` before the tab at `target` keeps every tab, keeps the
/// others in their order, makes the moved tab active, and leaves it standing immediately
/// before the tab that was at `target`; dropped past the end, it becomes the last tab.
pub proof fn lemma_tab_move_lands_before_target(items: Seq<DockPanel>, active_ix: nat, n: Seq<char>, from: int, target: nat)
    requires
        0 <= from < items.len(),
        items[from].name@ == n,
        forall|j: int| 0 <= j < from ==> #[trigger] items[j].name@ != n,
    ensures
        ({
            let (r, ok) = tab_moved(DockNode::Tabs { items, active_ix }, n, target);
            &&& ok
            &&& r matches DockNode::Tabs { items: moved, active_ix: a } && {
                &&& moved.len() == items.len()
                &&& a < moved.len()
                &&& moved[a as int] == items[from]
                &&& moved.remove(a as int) == items.remove(from)
                &&& target < items.len() && target != from ==> a + 1 < moved.len() && moved[a as int + 1] == items[target as int]
                &&& target >= items.len() ==> a == items.len() - 1
            }
        }),
{
    lemma_index_named_first(items, n, from);
    let rest = items.remove(from);
    let t = moved_target(from as nat, target, rest.len());
    let moved = rest.insert(t as int, items[from]);
    assert(moved.remove(t as int) == rest);
    if target < items.len() && target != from {
        if from < target {
            assert(moved[t as int + 1] == rest[t as int]);
            assert(rest[t as int] == items[t as int + 1]);
        } else {
            assert(moved[t as int + 1] == rest[t as int]);
            assert(rest[t as int] == items[t as int]);
        }
    }
}

} // verus!
