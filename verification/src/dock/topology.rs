//! Serializable name-based dock topology and its canonical form.

use vstd::prelude::*;

use super::item::{
    call_fallback, lemma_take_step, meta_at, name_in, in_names, size_at, str_eq, fallback_agrees, fallback_callable,
    fallback_deterministic, fallback_of, lemma_deterministic_fallback_agrees, TileMeta,
};

verus! {

/// Bit pattern of the single-precision value 160.0, the smallest tile width.
pub const DOCK_TILE_MIN_W_BITS: u32 = 0x4320_0000;

/// Bit pattern of the single-precision value 96.0, the smallest tile height.
pub const DOCK_TILE_MIN_H_BITS: u32 = 0x42C0_0000;

/// Whether a single-precision bit pattern encodes a finite value.
pub open spec fn is_finite_bits(b: u32) -> bool {
    b % 0x8000_0000 < 0x7f80_0000
}

/// Whether a single-precision bit pattern encodes a finite value greater than zero.
pub open spec fn is_positive_bits(b: u32) -> bool {
    0 < b < 0x7f80_0000
}

/// The value kept when it is finite and positive; absent otherwise.
pub open spec fn positive_or_none(b: u32) -> Option<u32> {
    if is_positive_bits(b) {
        Some(b)
    } else {
        None
    }
}

/// Tile geometry with non-finite coordinates reset to zero and invalid sizes raised to the
/// smallest tile.
pub open spec fn canonical_tile_meta(m: TileMeta) -> TileMeta {
    TileMeta {
        x: if is_finite_bits(m.x) { m.x } else { 0 },
        y: if is_finite_bits(m.y) { m.y } else { 0 },
        w: if is_positive_bits(m.w) { m.w } else { DOCK_TILE_MIN_W_BITS },
        h: if is_positive_bits(m.h) { m.h } else { DOCK_TILE_MIN_H_BITS },
        z_index: m.z_index,
    }
}

/// Keep a finite positive size, dropping every other value.
pub fn normalized_positive(b: u32) -> (r: Option<u32>)
    ensures
        r == positive_or_none(b),
{
    if 0 < b && b < 0x7f80_0000 {
        Some(b)
    } else {
        None
    }
}

/// Canonicalize invalid tile geometry without changing valid coordinates.
pub fn normalized_tile_meta(m: TileMeta) -> (r: TileMeta)
    ensures
        r == canonical_tile_meta(m),
{
    TileMeta {
        x: if m.x % 0x8000_0000 < 0x7f80_0000 { m.x } else { 0 },
        y: if m.y % 0x8000_0000 < 0x7f80_0000 { m.y } else { 0 },
        w: if 0 < m.w && m.w < 0x7f80_0000 { m.w } else { DOCK_TILE_MIN_W_BITS },
        h: if 0 < m.h && m.h < 0x7f80_0000 { m.h } else { DOCK_TILE_MIN_H_BITS },
        z_index: m.z_index,
    }
}

/// One serializable node of a name-based dock topology.
///
/// Split sizes and tile geometry are single-precision values held as their bit patterns.
#[derive(Debug)]
pub enum DockTopologyNode {
    Empty,
    Panel { name: String },
    Tabs { names: Vec<String> },
    Tiles { names: Vec<String>, metas: Vec<TileMeta> },
    Split { horizontal: bool, items: Vec<DockTopologyNode>, sizes: Vec<Option<u32>> },
}

/// The mathematical value of a [`DockTopologyNode`].
pub enum TopoNode {
    Empty,
    Panel(Seq<char>),
    Tabs(Seq<Seq<char>>),
    Tiles(Seq<Seq<char>>, Seq<TileMeta>),
    Split(bool, Seq<TopoNode>, Seq<Option<u32>>),
}

/// The characters of each name, in order.
pub open spec fn names_view(names: Seq<String>) -> Seq<Seq<char>> {
    names.map_values(|s: String| s@)
}

/// The values of a sequence of topology nodes.
pub open spec fn view_topos(items: Seq<DockTopologyNode>) -> Seq<TopoNode>
    decreases items,
{
    if items.len() == 0 {
        Seq::empty()
    } else {
        view_topos(items.drop_last()).push(view_topo(items.last()))
    }
}

/// The value of one topology node.
pub open spec fn view_topo(node: DockTopologyNode) -> TopoNode
    decreases node,
{
    match node {
        DockTopologyNode::Empty => TopoNode::Empty,
        DockTopologyNode::Panel { name } => TopoNode::Panel(name@),
        DockTopologyNode::Tabs { names } => TopoNode::Tabs(names_view(names@)),
        DockTopologyNode::Tiles { names, metas } => TopoNode::Tiles(names_view(names@), metas@),
        DockTopologyNode::Split { horizontal, items, sizes } => TopoNode::Split(
            horizontal,
            view_topos(items@),
            sizes@,
        ),
    }
}

impl View for DockTopologyNode {
    type V = TopoNode;

    open spec fn view(&self) -> TopoNode {
        view_topo(*self)
    }
}

pub proof fn lemma_view_topos(items: Seq<DockTopologyNode>)
    ensures
        view_topos(items).len() == items.len(),
        forall|i: int| 0 <= i < items.len() ==> #[trigger] view_topos(items)[i] == view_topo(items[i]),
    decreases items.len(),
{
    if items.len() > 0 {
        lemma_view_topos(items.drop_last());
    }
}

/// `names` without empty names and names already seen, with the names seen afterwards.
pub open spec fn first_unique_names(names: Seq<Seq<char>>, seen: Seq<Seq<char>>) -> (Seq<Seq<char>>, Seq<Seq<char>>)
    decreases names.len(),
{
    if names.len() == 0 {
        (Seq::empty(), seen)
    } else {
        let (kept, s) = first_unique_names(names.drop_last(), seen);
        let n = names.last();
        if n.len() == 0 || s.contains(n) {
            (kept, s)
        } else {
            (kept.push(n), s.push(n))
        }
    }
}

/// Tiles whose name is new and non-empty, with canonical geometry (the fallback where none
/// is stored), and the names seen afterwards.
pub open spec fn unique_tiles(
    names: Seq<Seq<char>>,
    metas: Seq<TileMeta>,
    seen: Seq<Seq<char>>,
    d: spec_fn(usize) -> TileMeta,
) -> (Seq<Seq<char>>, Seq<TileMeta>, Seq<Seq<char>>)
    decreases names.len(),
{
    if names.len() == 0 {
        (Seq::empty(), Seq::empty(), seen)
    } else {
        let (kn, km, s) = unique_tiles(names.drop_last(), metas, seen, d);
        let n = names.last();
        if n.len() == 0 || s.contains(n) {
            (kn, km, s)
        } else {
            (kn.push(n), km.push(canonical_tile_meta(meta_at(metas, names.len() - 1, d))), s.push(n))
        }
    }
}

/// Normalized children of a split with their canonical sizes, and the names seen afterwards.
pub open spec fn normalized_children(
    items: Seq<TopoNode>,
    sizes: Seq<Option<u32>>,
    seen: Seq<Seq<char>>,
    d: spec_fn(usize) -> TileMeta,
) -> (Seq<TopoNode>, Seq<Option<u32>>, Seq<Seq<char>>)
    decreases items,
{
    if items.len() == 0 {
        (Seq::empty(), Seq::empty(), seen)
    } else {
        let (kc, ks, s) = normalized_children(items.drop_last(), sizes, seen, d);
        let (c, s2) = normalized_node(items.last(), s, d);
        if c is Empty {
            (kc, ks, s2)
        } else {
            let size = match size_at(sizes, items.len() - 1) {
                Some(b) => positive_or_none(b),
                None => None,
            };
            (kc.push(c), ks.push(size), s2)
        }
    }
}

/// A node normalized against the names already seen: empty and repeated names are dropped,
/// geometry is made canonical, and containers left with one member or none collapse.
pub open spec fn normalized_node(node: TopoNode, seen: Seq<Seq<char>>, d: spec_fn(usize) -> TileMeta) -> (TopoNode, Seq<Seq<char>>)
    decreases node,
{
    match node {
        TopoNode::Empty => (TopoNode::Empty, seen),
        TopoNode::Panel(n) => if n.len() == 0 || seen.contains(n) {
            (TopoNode::Empty, seen)
        } else {
            (TopoNode::Panel(n), seen.push(n))
        },
        TopoNode::Tabs(names) => {
            let (u, s) = first_unique_names(names, seen);
            (if u.len() == 0 {
                TopoNode::Empty
            } else if u.len() == 1 {
                TopoNode::Panel(u[0])
            } else {
                TopoNode::Tabs(u)
            }, s)
        },
        TopoNode::Tiles(names, metas) => {
            let (kn, km, s) = unique_tiles(names, metas, seen, d);
            (if kn.len() == 0 {
                TopoNode::Empty
            } else if kn.len() == 1 {
                TopoNode::Panel(kn[0])
            } else {
                TopoNode::Tiles(kn, km)
            }, s)
        },
        TopoNode::Split(horizontal, items, sizes) => {
            let (kc, ks, s) = normalized_children(items, sizes, seen, d);
            (if kc.len() == 0 {
                TopoNode::Empty
            } else if kc.len() == 1 {
                kc[0]
            } else {
                TopoNode::Split(horizontal, kc, ks)
            }, s)
        },
    }
}


pub proof fn lemma_in_names_contains(n: Seq<char>, names: Seq<String>)
    ensures
        in_names(n, names) == names_view(names).contains(n),
{
    if in_names(n, names) {
        let k = choose|k: int| 0 <= k < names.len() && #[trigger] names[k]@ == n;
        assert(names_view(names)[k] == n);
    }
    if names_view(names).contains(n) {
        let k = choose|k: int| 0 <= k < names_view(names).len() && names_view(names)[k] == n;
        assert(names[k]@ == n);
    }
}

/// Push a name onto the seen list.
fn see(seen: &mut Vec<String>, name: &String)
    ensures
        names_view(final(seen)@) == names_view(old(seen)@).push(name@),
{
    seen.push(name.clone());
    assert(names_view(seen@) =~= names_view(old(seen)@).push(name@));
}

/// The non-empty names of a strip not seen yet, each at its first occurrence and in order,
/// recording them as seen.
pub fn unique_names(names: &Vec<String>, seen: &mut Vec<String>) -> (r: Vec<String>)
    ensures
        (names_view(r@), names_view(final(seen)@)) == first_unique_names(names_view(names@), names_view(old(seen)@)),
{
    let ghost nv = names_view(names@);
    let ghost s0 = names_view(seen@);
    let mut kept: Vec<String> = Vec::new();
    let mut i: usize = 0;
    while i < names.len()
        invariant
            i <= names.len(),
            nv == names_view(names@),
            (names_view(kept@), names_view(seen@)) == first_unique_names(nv.take(i as int), s0),
        decreases names.len() - i,
    {
        proof {
            lemma_take_step(nv, i as int);
            lemma_in_names_contains(names@[i as int]@, seen@);
        }
        assert(nv[i as int] == names@[i as int]@);
        let name = &names[i];
        if name.unicode_len() == 0 || name_in(name.as_str(), seen) {
        } else {
            let ghost prev = kept@;
            kept.push(name.clone());
            assert(names_view(kept@) =~= names_view(prev).push(name@)) by {
                assert(names_view(kept@).len() == kept@.len());
            }
            see(seen, name);
        }
        i = i + 1;
    }
    assert(nv.take(names.len() as int) == nv);
    kept
}

impl DockTopologyNode {
    /// Normalize this node while retaining the first occurrence of every panel name, given
    /// the names already seen elsewhere in the topology.
    pub fn normalized_with<F: Fn(usize) -> TileMeta + Copy>(&self, seen: &mut Vec<String>, missing: F) -> (r: DockTopologyNode)
        requires
            fallback_callable(missing),
        ensures
            forall|g: spec_fn(usize) -> TileMeta| fallback_agrees(missing, g) ==> (r@, names_view(final(seen)@)) == #[trigger] normalized_node(self@, names_view(old(seen)@), g),
        decreases self,
    {
        let ghost sv = self@;
        let ghost s_in = names_view(seen@);
        match self {
            DockTopologyNode::Empty => {
                assert forall|g: spec_fn(usize) -> TileMeta| fallback_agrees(missing, g) implies (TopoNode::Empty, s_in) == #[trigger] normalized_node(sv, s_in, g) by {}
                DockTopologyNode::Empty
            },
            DockTopologyNode::Panel { name } => {
                proof { lemma_in_names_contains(name@, seen@); }
                let r = if name.unicode_len() == 0 || name_in(name.as_str(), seen) {
                    DockTopologyNode::Empty
                } else {
                    see(seen, name);
                    DockTopologyNode::Panel { name: name.clone() }
                };
                assert forall|g: spec_fn(usize) -> TileMeta| fallback_agrees(missing, g) implies (r@, names_view(seen@)) == #[trigger] normalized_node(sv, s_in, g) by {}
                r
            },
            DockTopologyNode::Tabs { names } => {
                let mut u = unique_names(names, seen);
                proof { assert(names_view(u@).len() == u@.len()); }
                let ghost uv = names_view(u@);
                let r = if u.len() == 0 {
                    DockTopologyNode::Empty
                } else if u.len() == 1 {
                    assert(names_view(u@)[0] == u@[0]@);
                    DockTopologyNode::Panel { name: u.remove(0) }
                } else {
                    DockTopologyNode::Tabs { names: u }
                };
                assert forall|g: spec_fn(usize) -> TileMeta| fallback_agrees(missing, g) implies (r@, names_view(seen@)) == #[trigger] normalized_node(sv, s_in, g) by {
                    assert((uv, names_view(seen@)) == first_unique_names(names_view(names@), s_in));
                }
                r
            },
            DockTopologyNode::Tiles { names, metas } => {
                let ghost nv = names_view(names@);
                let ghost s0 = names_view(seen@);
                let mut kept: Vec<String> = Vec::new();
                let mut kept_metas: Vec<TileMeta> = Vec::new();
                let mut i: usize = 0;
                while i < names.len()
                    invariant
                        i <= names.len(),
                        fallback_callable(missing),
                        nv == names_view(names@),
                        forall|g: spec_fn(usize) -> TileMeta| fallback_agrees(missing, g) ==> (names_view(kept@), kept_metas@, names_view(seen@)) == #[trigger] unique_tiles(nv.take(i as int), metas@, s0, g),
                    decreases names.len() - i,
                {
                    proof {
                        lemma_take_step(nv, i as int);
                        lemma_in_names_contains(names@[i as int]@, seen@);
                    }
                    assert(nv[i as int] == names@[i as int]@);
                    let name = &names[i];
                    let ghost k0 = names_view(kept@);
                    let ghost m0 = kept_metas@;
                    let ghost seen0 = names_view(seen@);
                    if name.unicode_len() == 0 || name_in(name.as_str(), seen) {
                    } else {
                        let stored = if i < metas.len() { metas[i] } else { call_fallback(&missing, i) };
                        let ghost prev = kept@;
                        kept.push(name.clone());
                        assert(names_view(kept@) =~= names_view(prev).push(name@)) by {
                            assert(names_view(kept@).len() == kept@.len());
                        }
                        kept_metas.push(normalized_tile_meta(stored));
                        see(seen, name);
                    }
                    assert forall|g: spec_fn(usize) -> TileMeta| fallback_agrees(missing, g) implies (names_view(kept@), kept_metas@, names_view(seen@)) == #[trigger] unique_tiles(nv.take(i + 1), metas@, s0, g) by {
                        assert((k0, m0, seen0) == unique_tiles(nv.take(i as int), metas@, s0, g));
                    }
                    i = i + 1;
                }
                assert(nv.take(names.len() as int) == nv);
                proof { assert(names_view(kept@).len() == kept@.len()); }
                let ghost kv = names_view(kept@);
                let ghost kmv = kept_metas@;
                let r = if kept.len() == 0 {
                    DockTopologyNode::Empty
                } else if kept.len() == 1 {
                    assert(names_view(kept@)[0] == kept@[0]@);
                    DockTopologyNode::Panel { name: kept.remove(0) }
                } else {
                    DockTopologyNode::Tiles { names: kept, metas: kept_metas }
                };
                assert forall|g: spec_fn(usize) -> TileMeta| fallback_agrees(missing, g) implies (r@, names_view(seen@)) == #[trigger] normalized_node(sv, s_in, g) by {
                    assert((kv, kmv, names_view(seen@)) == unique_tiles(nv.take(names.len() as int), metas@, s0, g));
                }
                r
            },
            DockTopologyNode::Split { horizontal, items, sizes } => {
                let ghost v = view_topos(items@);
                let ghost s0 = names_view(seen@);
                proof { lemma_view_topos(items@); }
                let mut kept: Vec<DockTopologyNode> = Vec::new();
                let mut kept_sizes: Vec<Option<u32>> = Vec::new();
                let mut i: usize = 0;
                #[verifier::loop_isolation(false)]
                while i < items.len()
                    invariant
                        i <= items.len(),
                        forall|g: spec_fn(usize) -> TileMeta| fallback_agrees(missing, g) ==> (view_topos(kept@), kept_sizes@, names_view(seen@)) == #[trigger] normalized_children(v.take(i as int), sizes@, s0, g),
                    decreases items.len() - i,
                {
                    proof { lemma_take_step(v, i as int); }
                    let ghost k0 = view_topos(kept@);
                    let ghost z0 = kept_sizes@;
                    let ghost seen0 = names_view(seen@);
                    let child = items[i].normalized_with(seen, missing);
                    let ghost seen1 = names_view(seen@);
                    if !child.is_empty() {
                        let size = if i < sizes.len() {
                            match sizes[i] {
                                Some(b) => normalized_positive(b),
                                None => None,
                            }
                        } else {
                            None
                        };
                        proof { assert(kept@.push(child).drop_last() == kept@); }
                        kept.push(child);
                        kept_sizes.push(size);
                    }
                    assert forall|g: spec_fn(usize) -> TileMeta| fallback_agrees(missing, g) implies (view_topos(kept@), kept_sizes@, names_view(seen@)) == #[trigger] normalized_children(v.take(i + 1), sizes@, s0, g) by {
                        assert((k0, z0, seen0) == normalized_children(v.take(i as int), sizes@, s0, g));
                        assert((child@, seen1) == normalized_node(items@[i as int]@, seen0, g));
                        assert(v[i as int] == items@[i as int]@);
                    }
                    i = i + 1;
                }
                assert(v.take(items.len() as int) == v);
                proof { lemma_view_topos(kept@); }
                let ghost kv = view_topos(kept@);
                let ghost ksv = kept_sizes@;
                let ghost kept_raw = kept@;
                let r = if kept.len() == 0 {
                    DockTopologyNode::Empty
                } else if kept.len() == 1 {
                    kept.remove(0)
                } else {
                    DockTopologyNode::Split { horizontal: *horizontal, items: kept, sizes: kept_sizes }
                };
                assert forall|g: spec_fn(usize) -> TileMeta| fallback_agrees(missing, g) implies (r@, names_view(seen@)) == #[trigger] normalized_node(sv, s_in, g) by {
                    assert((kv, ksv, names_view(seen@)) == normalized_children(v.take(items.len() as int), sizes@, s0, g));
                    if kept_raw.len() == 1 {
                        assert(kv[0] == kept_raw[0]@);
                    }
                }
                r
            },
        }
    }

    /// Whether this node is empty.
    pub fn is_empty(&self) -> (r: bool)
        ensures
            r == (self@ is Empty),
    {
        match self {
            DockTopologyNode::Empty => true,
            _ => false,
        }
    }
}


/// One optional side root in a name-based dock topology; `size` is a single-precision
/// value held as its bit pattern.
#[derive(Debug)]
pub struct DockTopologySide {
    pub item: DockTopologyNode,
    pub size: u32,
    pub open: bool,
}

/// The mathematical value of a side root.
pub struct TopoSide {
    pub item: TopoNode,
    pub size: u32,
    pub open: bool,
}

/// Serializable panel-name topology for sharing one layout across independent docks.
///
/// It holds geometry, side placement, tab order and sizes; it holds no panel payloads,
/// active tabs, zoom state or live panel instances.
#[derive(Debug)]
pub struct DockTopologyByName {
    pub center: DockTopologyNode,
    pub left: Option<DockTopologySide>,
    pub right: Option<DockTopologySide>,
    pub bottom: Option<DockTopologySide>,
}

/// The mathematical value of a topology.
pub struct TopoLayout {
    pub center: TopoNode,
    pub left: Option<TopoSide>,
    pub right: Option<TopoSide>,
    pub bottom: Option<TopoSide>,
}

pub open spec fn view_side(side: Option<DockTopologySide>) -> Option<TopoSide> {
    match side {
        Some(s) => Some(TopoSide { item: s.item@, size: s.size, open: s.open }),
        None => None,
    }
}

impl View for DockTopologyByName {
    type V = TopoLayout;

    open spec fn view(&self) -> TopoLayout {
        TopoLayout {
            center: self.center@,
            left: view_side(self.left),
            right: view_side(self.right),
            bottom: view_side(self.bottom),
        }
    }
}

/// A side normalized after the names seen so far; dropped when no panel survives.
pub open spec fn normalized_side(side: Option<TopoSide>, seen: Seq<Seq<char>>, d: spec_fn(usize) -> TileMeta) -> (Option<TopoSide>, Seq<Seq<char>>) {
    match side {
        None => (None, seen),
        Some(s) => {
            let (item, s2) = normalized_node(s.item, seen, d);
            if item is Empty {
                (None, s2)
            } else {
                (Some(TopoSide {
                    item,
                    size: if is_positive_bits(s.size) { s.size } else { 0 },
                    open: s.open,
                }), s2)
            }
        },
    }
}

/// The canonical form of a topology: the center, then the left, right and bottom sides,
/// normalized in that order so that the first occurrence of each panel name wins.
pub open spec fn normalized_layout(t: TopoLayout, d: spec_fn(usize) -> TileMeta) -> TopoLayout {
    let (center, s1) = normalized_node(t.center, Seq::empty(), d);
    let (left, s2) = normalized_side(t.left, s1, d);
    let (right, s3) = normalized_side(t.right, s2, d);
    let (bottom, _s4) = normalized_side(t.bottom, s3, d);
    TopoLayout { center, left, right, bottom }
}

/// Panel names of a node in traversal order.
pub open spec fn topo_names(node: TopoNode) -> Seq<Seq<char>>
    decreases node,
{
    match node {
        TopoNode::Empty => Seq::empty(),
        TopoNode::Panel(n) => seq![n],
        TopoNode::Tabs(names) => names,
        TopoNode::Tiles(names, _) => names,
        TopoNode::Split(_, items, _) => topo_names_all(items),
    }
}

/// Panel names of a sequence of nodes in traversal order.
pub open spec fn topo_names_all(items: Seq<TopoNode>) -> Seq<Seq<char>>
    decreases items,
{
    if items.len() == 0 {
        Seq::empty()
    } else {
        topo_names_all(items.drop_last()) + topo_names(items.last())
    }
}

pub open spec fn side_names(side: Option<TopoSide>) -> Seq<Seq<char>> {
    match side {
        Some(s) => topo_names(s.item),
        None => Seq::empty(),
    }
}

/// Panel names of a topology: center, left, right, bottom.
pub open spec fn layout_names(t: TopoLayout) -> Seq<Seq<char>> {
    topo_names(t.center) + side_names(t.left) + side_names(t.right) + side_names(t.bottom)
}

impl DockTopologySide {
    fn normalized_after<F: Fn(usize) -> TileMeta + Copy>(side: &Option<DockTopologySide>, seen: &mut Vec<String>, missing: F) -> (r: Option<DockTopologySide>)
        requires
            fallback_callable(missing),
        ensures
            forall|g: spec_fn(usize) -> TileMeta| fallback_agrees(missing, g) ==> (view_side(r), names_view(final(seen)@)) == #[trigger] normalized_side(view_side(*side), names_view(old(seen)@), g),
    {
        match side {
            None => None,
            Some(s) => {
                let item = s.item.normalized_with(seen, missing);
                if item.is_empty() {
                    None
                } else {
                    let size = if 0 < s.size && s.size < 0x7f80_0000 { s.size } else { 0 };
                    Some(DockTopologySide { item, size, open: s.open })
                }
            },
        }
    }
}

/// Append the names of a node, in traversal order.
fn append_topo_names(node: &DockTopologyNode, names: &mut Vec<String>)
    ensures
        names_view(final(names)@) == names_view(old(names)@) + topo_names(node@),
    decreases node,
{
    let ghost start = names_view(names@);
    match node {
        DockTopologyNode::Empty => {
            assert(names_view(names@) =~= start + topo_names(node@));
        },
        DockTopologyNode::Panel { name } => {
            names.push(name.clone());
            assert(names_view(names@) =~= start + topo_names(node@));
        },
        DockTopologyNode::Tabs { names: node_names } => {
            append_all_names(node_names, names);
        },
        DockTopologyNode::Tiles { names: node_names, .. } => {
            append_all_names(node_names, names);
        },
        DockTopologyNode::Split { items, .. } => {
            let ghost v = view_topos(items@);
            proof { lemma_view_topos(items@); }
            let mut i: usize = 0;
            #[verifier::loop_isolation(false)]
            while i < items.len()
                invariant
                    i <= items.len(),
                    names_view(names@) == start + topo_names_all(v.take(i as int)),
                decreases items.len() - i,
            {
                proof {
                    lemma_take_step(v, i as int);
                    assert(start + topo_names_all(v.take(i + 1)) == start + topo_names_all(v.take(i as int)) + topo_names(v[i as int]));
                }
                append_topo_names(&items[i], names);
                i = i + 1;
            }
            assert(v.take(items.len() as int) == v);
        },
    }
}

/// Append clones of a strip of names.
fn append_all_names(src: &Vec<String>, names: &mut Vec<String>)
    ensures
        names_view(final(names)@) == names_view(old(names)@) + names_view(src@),
{
    let ghost start = names_view(names@);
    let mut i: usize = 0;
    while i < src.len()
        invariant
            i <= src.len(),
            names_view(names@) == start + names_view(src@).take(i as int),
        decreases src.len() - i,
    {
        let ghost prev = names@;
        names.push(src[i].clone());
        assert(names_view(names@) =~= start + names_view(src@).take(i + 1)) by {
            assert(names_view(names@) =~= names_view(prev).push(src@[i as int]@));
        }
        i = i + 1;
    }
    assert(names_view(src@).take(src.len() as int) =~= names_view(src@));
}

impl DockTopologyByName {
    /// Return a deterministic topology suitable for equality checks and persistence.
    ///
    /// Empty names and every repeated occurrence of a name after its first (center, then
    /// left, right, bottom) are dropped; containers left with one member collapse to it,
    /// emptied sides disappear, and invalid geometry becomes canonical; tiles without stored
    /// geometry are placed by `missing` at their index.
    ///
    /// Where `missing` gives one geometry per index, the result is the normal form computed
    /// with it, names each panel once under a non-empty name, and normalizes to itself under
    /// any fallback.
    pub fn normalized<F: Fn(usize) -> TileMeta + Copy>(&self, missing: F) -> (r: DockTopologyByName)
        requires
            fallback_callable(missing),
        ensures
            forall|g: spec_fn(usize) -> TileMeta| fallback_agrees(missing, g) ==> r@ == #[trigger] normalized_layout(self@, g),
            fallback_deterministic(missing) ==> {
                &&& r@ == normalized_layout(self@, fallback_of(missing))
                &&& super::laws::distinct_nonempty(layout_names(r@))
                &&& forall|d2: spec_fn(usize) -> TileMeta| #[trigger] normalized_layout(r@, d2) == r@
            },
    {
        let mut seen: Vec<String> = Vec::new();
        assert(names_view(seen@) =~= Seq::<Seq<char>>::empty());
        let center = self.center.normalized_with(&mut seen, missing);
        let left = DockTopologySide::normalized_after(&self.left, &mut seen, missing);
        let right = DockTopologySide::normalized_after(&self.right, &mut seen, missing);
        let bottom = DockTopologySide::normalized_after(&self.bottom, &mut seen, missing);
        let r = DockTopologyByName { center, left, right, bottom };
        proof {
            if fallback_deterministic(missing) {
                let g = fallback_of(missing);
                lemma_deterministic_fallback_agrees(missing);
                assert(r@ == normalized_layout(self@, g));
                super::laws::lemma_normalized_names_unique(self@, g);
                assert forall|d2: spec_fn(usize) -> TileMeta| #[trigger] normalized_layout(r@, d2) == r@ by {
                    super::laws::lemma_normal_form_ignores_fallback(self@, g, d2);
                }
            }
        }
        r
    }

    /// Return every unique panel name in normalized traversal order.
    pub fn panel_names<F: Fn(usize) -> TileMeta + Copy>(&self, missing: F) -> (r: Vec<String>)
        requires
            fallback_callable(missing),
        ensures
            forall|g: spec_fn(usize) -> TileMeta| fallback_agrees(missing, g) ==> names_view(r@) == layout_names(#[trigger] normalized_layout(self@, g)),
    {
        let t = self.normalized(missing);
        let mut names: Vec<String> = Vec::new();
        assert(names_view(names@) =~= Seq::<Seq<char>>::empty());
        append_topo_names(&t.center, &mut names);
        match &t.left {
            Some(s) => append_topo_names(&s.item, &mut names),
            None => {},
        }
        match &t.right {
            Some(s) => append_topo_names(&s.item, &mut names),
            None => {},
        }
        match &t.bottom {
            Some(s) => append_topo_names(&s.item, &mut names),
            None => {},
        }
        proof {
            let tv = t@;
            assert(names_view(names@) =~= layout_names(tv));
        }
        names
    }

    /// Build a single-strip topology from preferred panel names, normalized.
    pub fn tab_preset(names: Vec<String>) -> (r: DockTopologyByName)
        ensures
            forall|d: spec_fn(usize) -> TileMeta| r@ == #[trigger] normalized_layout(
                TopoLayout { center: TopoNode::Tabs(names_view(names@)), left: None, right: None, bottom: None },
                d,
            ),
    {
        let mut seen: Vec<String> = Vec::new();
        assert(names_view(seen@) =~= Seq::<Seq<char>>::empty());
        let mut u = unique_names(&names, &mut seen);
        proof { assert(names_view(u@).len() == u@.len()); }
        let center = if u.len() == 0 {
            DockTopologyNode::Empty
        } else if u.len() == 1 {
            assert(names_view(u@)[0] == u@[0]@);
            DockTopologyNode::Panel { name: u.remove(0) }
        } else {
            DockTopologyNode::Tabs { names: u }
        };
        DockTopologyByName { center, left: None, right: None, bottom: None }
    }
}


/// A coordinate as IEEE comparison reads it: negative zero is zero.
pub open spec fn signless_zero(b: u32) -> u32 {
    if b == 0x8000_0000 { 0 } else { b }
}

/// Tile geometry as comparison reads it.
pub open spec fn compared_meta(m: TileMeta) -> TileMeta {
    TileMeta { x: signless_zero(m.x), y: signless_zero(m.y), ..m }
}

/// A node as comparison reads it: tile coordinates with negative zero read as zero.
///
/// On normalized topologies every other stored value is a positive finite single-precision
/// value or zero, whose IEEE equality is equality of bit patterns.
pub open spec fn compared_node(n: TopoNode) -> TopoNode
    decreases n,
{
    match n {
        TopoNode::Tiles(names, metas) => TopoNode::Tiles(names, metas.map_values(|m: TileMeta| compared_meta(m))),
        TopoNode::Split(h, items, sizes) => TopoNode::Split(h, compared_all(items), sizes),
        _ => n,
    }
}

/// Each node of a sequence as comparison reads it.
pub open spec fn compared_all(items: Seq<TopoNode>) -> Seq<TopoNode>
    decreases items,
{
    if items.len() == 0 {
        Seq::empty()
    } else {
        compared_all(items.drop_last()).push(compared_node(items.last()))
    }
}

/// A side as comparison reads it.
pub open spec fn compared_side(s: Option<TopoSide>) -> Option<TopoSide> {
    match s {
        Some(side) => Some(TopoSide { item: compared_node(side.item), ..side }),
        None => None,
    }
}

/// A topology as comparison reads it.
pub open spec fn compared_layout(t: TopoLayout) -> TopoLayout {
    TopoLayout {
        center: compared_node(t.center),
        left: compared_side(t.left),
        right: compared_side(t.right),
        bottom: compared_side(t.bottom),
    }
}

/// Whether two topologies describe the same canonical layout: equal once normalized, with
/// geometry compared as IEEE values.
pub open spec fn same_topology(a: TopoLayout, b: TopoLayout, d: spec_fn(usize) -> TileMeta) -> bool {
    compared_layout(normalized_layout(a, d)) == compared_layout(normalized_layout(b, d))
}

proof fn lemma_compared_all(items: Seq<TopoNode>)
    ensures
        compared_all(items).len() == items.len(),
        forall|k: int| 0 <= k < items.len() ==> #[trigger] compared_all(items)[k] == compared_node(items[k]),
    decreases items.len(),
{
    if items.len() > 0 {
        lemma_compared_all(items.drop_last());
    }
}

/// Whether two name lists hold the same names in the same order.
fn names_equal(a: &Vec<String>, b: &Vec<String>) -> (r: bool)
    ensures
        r == (names_view(a@) == names_view(b@)),
{
    if a.len() != b.len() {
        assert(names_view(a@).len() != names_view(b@).len());
        return false;
    }
    let mut i: usize = 0;
    while i < a.len()
        invariant
            i <= a.len(),
            a.len() == b.len(),
            forall|k: int| 0 <= k < i ==> a@[k]@ == b@[k]@,
        decreases a.len() - i,
    {
        if !str_eq(a[i].as_str(), b[i].as_str()) {
            assert(names_view(a@)[i as int] != names_view(b@)[i as int]);
            return false;
        }
        i = i + 1;
    }
    assert(names_view(a@) =~= names_view(b@));
    true
}

/// Whether two tile geometries compare equal.
fn metas_equal(a: &Vec<TileMeta>, b: &Vec<TileMeta>) -> (r: bool)
    ensures
        r == (a@.map_values(|m: TileMeta| compared_meta(m)) == b@.map_values(|m: TileMeta| compared_meta(m))),
{
    if a.len() != b.len() {
        assert(a@.map_values(|m: TileMeta| compared_meta(m)).len() != b@.map_values(|m: TileMeta| compared_meta(m)).len());
        return false;
    }
    let mut i: usize = 0;
    while i < a.len()
        invariant
            i <= a.len(),
            a.len() == b.len(),
            forall|k: int| 0 <= k < i ==> compared_meta(a@[k]) == compared_meta(b@[k]),
        decreases a.len() - i,
    {
        let x = a[i];
        let y = b[i];
        let ax = if x.x == 0x8000_0000 { 0 } else { x.x };
        let ay = if x.y == 0x8000_0000 { 0 } else { x.y };
        let bx = if y.x == 0x8000_0000 { 0 } else { y.x };
        let by = if y.y == 0x8000_0000 { 0 } else { y.y };
        if !(ax == bx && ay == by && x.w == y.w && x.h == y.h && x.z_index == y.z_index) {
            assert(a@.map_values(|m: TileMeta| compared_meta(m))[i as int] != b@.map_values(|m: TileMeta| compared_meta(m))[i as int]);
            return false;
        }
        i = i + 1;
    }
    assert(a@.map_values(|m: TileMeta| compared_meta(m)) =~= b@.map_values(|m: TileMeta| compared_meta(m)));
    true
}

/// Whether two split size lists are equal.
fn sizes_equal(a: &Vec<Option<u32>>, b: &Vec<Option<u32>>) -> (r: bool)
    ensures
        r == (a@ == b@),
{
    if a.len() != b.len() {
        return false;
    }
    let mut i: usize = 0;
    while i < a.len()
        invariant
            i <= a.len(),
            a.len() == b.len(),
            forall|k: int| 0 <= k < i ==> a@[k] == b@[k],
        decreases a.len() - i,
    {
        let same = match (a[i], b[i]) {
            (Some(x), Some(y)) => x == y,
            (None, None) => true,
            _ => false,
        };
        if !same {
            return false;
        }
        i = i + 1;
    }
    assert(a@ =~= b@);
    true
}

impl DockTopologyNode {
    /// Whether two nodes compare equal, tile coordinates compared as IEEE values.
    pub fn compares_equal(&self, other: &DockTopologyNode) -> (r: bool)
        ensures
            r == (compared_node(self@) == compared_node(other@)),
        decreases self,
    {
        match self {
            DockTopologyNode::Empty => match other {
                DockTopologyNode::Empty => true,
                _ => false,
            },
            DockTopologyNode::Panel { name: a } => match other {
                DockTopologyNode::Panel { name: b } => str_eq(a.as_str(), b.as_str()),
                _ => false,
            },
            DockTopologyNode::Tabs { names: a } => match other {
                DockTopologyNode::Tabs { names: b } => names_equal(a, b),
                _ => false,
            },
            DockTopologyNode::Tiles { names: a, metas: ma } => match other {
                DockTopologyNode::Tiles { names: b, metas: mb } => names_equal(a, b) && metas_equal(ma, mb),
                _ => false,
            },
            DockTopologyNode::Split { horizontal: ha, items: ia, sizes: sa } => match other {
                DockTopologyNode::Split { horizontal: hb, items: ib, sizes: sb } => {
                    proof {
                        lemma_view_topos(ia@);
                        lemma_view_topos(ib@);
                        lemma_compared_all(view_topos(ia@));
                        lemma_compared_all(view_topos(ib@));
                    }
                    if *ha != *hb || !sizes_equal(sa, sb) || ia.len() != ib.len() {
                        assert(compared_node(self@) != compared_node(other@)) by {
                            if ia.len() != ib.len() {
                                assert(compared_all(view_topos(ia@)).len() != compared_all(view_topos(ib@)).len());
                            }
                        }
                        return false;
                    }
                    let mut k: usize = 0;
                    #[verifier::loop_isolation(false)]
                    while k < ia.len()
                        invariant
                            k <= ia.len(),
                            ia.len() == ib.len(),
                            view_topos(ia@).len() == ia@.len(),
                            view_topos(ib@).len() == ib@.len(),
                            forall|j: int| 0 <= j < ia@.len() ==> #[trigger] view_topos(ia@)[j] == view_topo(ia@[j]),
                            forall|j: int| 0 <= j < ib@.len() ==> #[trigger] view_topos(ib@)[j] == view_topo(ib@[j]),
                            compared_all(view_topos(ia@)).len() == ia@.len(),
                            compared_all(view_topos(ib@)).len() == ib@.len(),
                            forall|j: int| 0 <= j < ia@.len() ==> #[trigger] compared_all(view_topos(ia@))[j] == compared_node(view_topos(ia@)[j]),
                            forall|j: int| 0 <= j < ib@.len() ==> #[trigger] compared_all(view_topos(ib@))[j] == compared_node(view_topos(ib@)[j]),
                            forall|j: int| 0 <= j < k ==> compared_node(ia@[j]@) == compared_node(ib@[j]@),
                        decreases ia.len() - k,
                    {
                        if !ia[k].compares_equal(&ib[k]) {
                            assert(compared_all(view_topos(ia@))[k as int] != compared_all(view_topos(ib@))[k as int]);
                            return false;
                        }
                        k = k + 1;
                    }
                    assert(compared_all(view_topos(ia@)) =~= compared_all(view_topos(ib@)));
                    true
                },
                _ => false,
            },
        }
    }
}

impl DockTopologyByName {
    /// Whether two topologies describe the same canonical layout (see [`same_topology`]).
    pub fn same_as<F: Fn(usize) -> TileMeta + Copy>(&self, other: &DockTopologyByName, missing: F) -> (r: bool)
        requires
            fallback_callable(missing),
        ensures
            forall|g: spec_fn(usize) -> TileMeta| #![trigger fallback_agrees(missing, g)] fallback_agrees(missing, g) ==>
                r == same_topology(self@, other@, g),
    {
        let a = self.normalized(missing);
        let b = other.normalized(missing);
        let center = a.center.compares_equal(&b.center);
        let left = side_compares_equal(&a.left, &b.left);
        let right = side_compares_equal(&a.right, &b.right);
        let bottom = side_compares_equal(&a.bottom, &b.bottom);
        center && left && right && bottom
    }
}

/// Whether two sides compare equal.
fn side_compares_equal(a: &Option<DockTopologySide>, b: &Option<DockTopologySide>) -> (r: bool)
    ensures
        r == (compared_side(view_side(*a)) == compared_side(view_side(*b))),
{
    match (a, b) {
        (Some(x), Some(y)) => x.size == y.size && x.open == y.open && x.item.compares_equal(&y.item),
        (None, None) => true,
        _ => false,
    }
}

} // verus!
