//! The live dock tree and its structural operations.

use vstd::prelude::*;

verus! {

/// One panel as the dock tree sees it: a live identity and its stable panel name.
///
/// Two occurrences are the same live panel exactly when their identities are equal.
#[derive(Debug)]
pub struct DockPanel {
    pub id: u64,
    pub name: String,
}

impl Clone for DockPanel {
    fn clone(&self) -> (r: DockPanel)
        ensures
            r == *self,
    {
        self.share()
    }
}

impl DockPanel {
    /// Create a panel reference from its identity and stable name.
    pub fn new(id: u64, name: String) -> (r: Self)
        ensures
            r.id == id,
            r.name@ == name@,
    {
        DockPanel { id, name }
    }

    /// Return another handle to the same live panel.
    pub fn share(&self) -> (r: Self)
        ensures
            r == *self,
    {
        DockPanel { id: self.id, name: self.name.clone() }
    }

    /// Whether this panel carries the given stable name.
    pub fn is_named(&self, name: &str) -> (r: bool)
        ensures
            r == (self.name@ == name@),
    {
        str_eq(self.name.as_str(), name)
    }
}

/// Compare two strings character by character.
pub fn str_eq(a: &str, b: &str) -> (r: bool)
    ensures
        r == (a@ == b@),
{
    let n = a.unicode_len();
    if n != b.unicode_len() {
        return false;
    }
    let mut i: usize = 0;
    while i < n
        invariant
            n == a@.len(),
            n == b@.len(),
            i <= n,
            forall|j: int| 0 <= j < i ==> a@[j] == b@[j],
        decreases n - i,
    {
        if a.get_char(i) != b.get_char(i) {
            return false;
        }
        i = i + 1;
    }
    assert(a@ =~= b@);
    true
}

/// Persisted freeform position, size and stacking order of one tile.
///
/// Coordinates and sizes are IEEE-754 single-precision values held as their bit patterns.
#[derive(Clone, Copy, Debug, PartialEq, Eq, Structural)]
pub struct TileMeta {
    pub x: u32,
    pub y: u32,
    pub w: u32,
    pub h: u32,
    pub z_index: usize,
}

/// Recursive dock-layout node containing panels, tabs, tiles, or nested splits.
///
/// Split sizes are optional IEEE-754 single-precision values held as their bit patterns;
/// `None` is a flexible slot.
#[derive(Debug)]
pub enum DockItem {
    Empty,
    Panel(DockPanel),
    Tabs { items: Vec<DockPanel>, active_ix: usize },
    Tiles { items: Vec<DockPanel>, metas: Vec<TileMeta> },
    Split { horizontal: bool, items: Vec<DockItem>, sizes: Vec<Option<u32>> },
}

/// The mathematical value of a [`DockItem`].
pub enum DockNode {
    Empty,
    Panel(DockPanel),
    Tabs { items: Seq<DockPanel>, active_ix: nat },
    Tiles { items: Seq<DockPanel>, metas: Seq<TileMeta> },
    Split { horizontal: bool, children: Seq<DockNode>, sizes: Seq<Option<u32>> },
}

/// The values of a sequence of dock items, in order.
pub open spec fn view_items(items: Seq<DockItem>) -> Seq<DockNode>
    decreases items,
{
    if items.len() == 0 {
        Seq::empty()
    } else {
        view_items(items.drop_last()).push(view_item(items.last()))
    }
}

/// The value of one dock item.
pub open spec fn view_item(item: DockItem) -> DockNode
    decreases item,
{
    match item {
        DockItem::Empty => DockNode::Empty,
        DockItem::Panel(p) => DockNode::Panel(p),
        DockItem::Tabs { items, active_ix } => DockNode::Tabs {
            items: items@,
            active_ix: active_ix as nat,
        },
        DockItem::Tiles { items, metas } => DockNode::Tiles { items: items@, metas: metas@ },
        DockItem::Split { horizontal, items, sizes } => DockNode::Split {
            horizontal,
            children: view_items(items@),
            sizes: sizes@,
        },
    }
}

impl View for DockItem {
    type V = DockNode;

    open spec fn view(&self) -> DockNode {
        view_item(*self)
    }
}

pub proof fn lemma_view_items(items: Seq<DockItem>)
    ensures
        view_items(items).len() == items.len(),
        forall|i: int| 0 <= i < items.len() ==> #[trigger] view_items(items)[i] == view_item(items[i]),
    decreases items.len(),
{
    if items.len() > 0 {
        lemma_view_items(items.drop_last());
    }
}

/// Every panel occurrence of a node, in traversal order.
pub open spec fn panels_of(node: DockNode) -> Seq<DockPanel>
    decreases node,
{
    match node {
        DockNode::Empty => Seq::empty(),
        DockNode::Panel(p) => seq![p],
        DockNode::Tabs { items, .. } => items,
        DockNode::Tiles { items, .. } => items,
        DockNode::Split { children, .. } => panels_of_all(children),
    }
}

/// Every panel occurrence of a sequence of nodes, in traversal order.
pub open spec fn panels_of_all(children: Seq<DockNode>) -> Seq<DockPanel>
    decreases children,
{
    if children.len() == 0 {
        Seq::empty()
    } else {
        panels_of_all(children.drop_last()) + panels_of(children.last())
    }
}

impl DockNode {
    pub open spec fn is_empty(self) -> bool {
        self is Empty
    }
}


/// Whether a tile fallback can be called at every index.
///
/// Tile fallbacks supply the geometry of a tile whose stored metadata is missing.
pub open spec fn fallback_callable<F: Fn(usize) -> TileMeta>(f: F) -> bool {
    forall|ix: usize| #[trigger] f.requires((ix,))
}

/// Whether every geometry `f` may give at an index is the one `g` gives there.
pub open spec fn fallback_agrees<F: Fn(usize) -> TileMeta>(f: F, g: spec_fn(usize) -> TileMeta) -> bool {
    forall|ix: usize, m: TileMeta| #[trigger] f.ensures((ix,), m) ==> m == g(ix)
}

/// Whether `f` gives at most one geometry at each index, as a function of the index does.
pub open spec fn fallback_deterministic<F: Fn(usize) -> TileMeta>(f: F) -> bool {
    forall|ix: usize, m1: TileMeta, m2: TileMeta| #[trigger] f.ensures((ix,), m1) && #[trigger] f.ensures((ix,), m2) ==> m1 == m2
}

/// The geometry `f` gives at each index, where it gives one.
pub open spec fn fallback_of<F: Fn(usize) -> TileMeta>(f: F) -> spec_fn(usize) -> TileMeta {
    |ix: usize| choose|m: TileMeta| f.ensures((ix,), m)
}

/// A fallback that gives at most one geometry per index agrees with the function it computes.
pub proof fn lemma_deterministic_fallback_agrees<F: Fn(usize) -> TileMeta>(f: F)
    requires
        fallback_deterministic(f),
    ensures
        fallback_agrees(f, fallback_of(f)),
{
    assert forall|ix: usize, m: TileMeta| #[trigger] f.ensures((ix,), m) implies m == fallback_of(f)(ix) by {
        let c = choose|m: TileMeta| f.ensures((ix,), m);
        assert(f.ensures((ix,), c));
    }
}

/// The fallback geometries of `n` consecutive tile indices starting at `start`.
pub open spec fn fallback_run(d: spec_fn(usize) -> TileMeta, start: int, n: nat) -> Seq<TileMeta> {
    Seq::new(n, |k: int| d((start + k) as usize))
}

/// Stored metadata of the tile at `ix`, or the fallback where none is stored.
pub open spec fn meta_at(metas: Seq<TileMeta>, ix: int, d: spec_fn(usize) -> TileMeta) -> TileMeta {
    if 0 <= ix < metas.len() {
        metas[ix]
    } else {
        d(ix as usize)
    }
}

/// Stored size of the split slot at `ix`, or a flexible slot where none is stored.
pub open spec fn size_at(sizes: Seq<Option<u32>>, ix: int) -> Option<u32> {
    if 0 <= ix < sizes.len() {
        sizes[ix]
    } else {
        None
    }
}

/// Whether a panel keeps its place when occurrences named `n` are removed.
pub open spec fn keeps(p: DockPanel, n: Seq<char>) -> bool {
    p.name@ != n
}

/// The panels of `s` that are not named `n`, in order.
pub open spec fn without_name(s: Seq<DockPanel>, n: Seq<char>) -> Seq<DockPanel> {
    s.filter(|p: DockPanel| keeps(p, n))
}

/// The panels of `s` that are named `n`, in order.
pub open spec fn with_name(s: Seq<DockPanel>, n: Seq<char>) -> Seq<DockPanel> {
    s.filter(|p: DockPanel| p.name@ == n)
}

/// A tab group after removal: nothing, a lone panel, or tabs with a clamped active index.
pub open spec fn collapse_tabs(kept: Seq<DockPanel>, active_ix: nat) -> DockNode {
    if kept.len() == 0 {
        DockNode::Empty
    } else if kept.len() == 1 {
        DockNode::Panel(kept[0])
    } else {
        DockNode::Tabs {
            items: kept,
            active_ix: if active_ix < kept.len() - 1 { active_ix } else { (kept.len() - 1) as nat },
        }
    }
}

/// Tiles kept after removing `n`, each with its own metadata or the fallback for its index.
pub open spec fn kept_tiles(
    items: Seq<DockPanel>,
    metas: Seq<TileMeta>,
    n: Seq<char>,
    d: spec_fn(usize) -> TileMeta,
) -> (Seq<DockPanel>, Seq<TileMeta>)
    decreases items.len(),
{
    if items.len() == 0 {
        (Seq::empty(), Seq::empty())
    } else {
        let (ki, km) = kept_tiles(items.drop_last(), metas, n, d);
        if keeps(items.last(), n) {
            (ki.push(items.last()), km.push(meta_at(metas, items.len() - 1, d)))
        } else {
            (ki, km)
        }
    }
}

/// A tile group after removal: nothing, a lone panel, or the kept tiles.
pub open spec fn collapse_tiles(kept: (Seq<DockPanel>, Seq<TileMeta>)) -> DockNode {
    if kept.0.len() == 0 {
        DockNode::Empty
    } else if kept.0.len() == 1 {
        DockNode::Panel(kept.0[0])
    } else {
        DockNode::Tiles { items: kept.0, metas: kept.1 }
    }
}

/// A split after removal: nothing, its lone surviving child, or the surviving children.
pub open spec fn collapse_split(horizontal: bool, kept: (Seq<DockNode>, Seq<Option<u32>>)) -> DockNode {
    if kept.0.len() == 0 {
        DockNode::Empty
    } else if kept.0.len() == 1 {
        kept.0[0]
    } else {
        DockNode::Split { horizontal, children: kept.0, sizes: kept.1 }
    }
}

/// The non-empty children that survive removing `n`, each with its stored size.
pub open spec fn kept_children(
    children: Seq<DockNode>,
    sizes: Seq<Option<u32>>,
    n: Seq<char>,
    d: spec_fn(usize) -> TileMeta,
) -> (Seq<DockNode>, Seq<Option<u32>>)
    decreases children,
{
    if children.len() == 0 {
        (Seq::empty(), Seq::empty())
    } else {
        let (kc, ks) = kept_children(children.drop_last(), sizes, n, d);
        let c = without_named(children.last(), n, d);
        if c is Empty {
            (kc, ks)
        } else {
            (kc.push(c), ks.push(size_at(sizes, children.len() - 1)))
        }
    }
}

/// The node left after removing every panel named `n`; emptied containers collapse.
pub open spec fn without_named(node: DockNode, n: Seq<char>, d: spec_fn(usize) -> TileMeta) -> DockNode
    decreases node,
{
    match node {
        DockNode::Empty => DockNode::Empty,
        DockNode::Panel(p) => if keeps(p, n) {
            DockNode::Panel(p)
        } else {
            DockNode::Empty
        },
        DockNode::Tabs { items, active_ix } => collapse_tabs(without_name(items, n), active_ix),
        DockNode::Tiles { items, metas } => collapse_tiles(kept_tiles(items, metas, n, d)),
        DockNode::Split { horizontal, children, sizes } => collapse_split(
            horizontal,
            kept_children(children, sizes, n, d),
        ),
    }
}

/// The last panel named `n` in `s`.
pub open spec fn last_named(s: Seq<DockPanel>, n: Seq<char>) -> Option<DockPanel>
    decreases s.len(),
{
    if s.len() == 0 {
        None
    } else if s.last().name@ == n {
        Some(s.last())
    } else {
        last_named(s.drop_last(), n)
    }
}

/// The first panel named `n` in `s`.
pub open spec fn first_named(s: Seq<DockPanel>, n: Seq<char>) -> Option<DockPanel>
    decreases s.len(),
{
    if s.len() == 0 {
        None
    } else if s[0].name@ == n {
        Some(s[0])
    } else {
        first_named(s.drop_first(), n)
    }
}

/// The panel a take returns from one node: the last occurrence in the first node that has one.
pub open spec fn taken_from(node: DockNode, n: Seq<char>) -> Option<DockPanel>
    decreases node,
{
    match node {
        DockNode::Empty => None,
        DockNode::Panel(p) => if p.name@ == n {
            Some(p)
        } else {
            None
        },
        DockNode::Tabs { items, .. } => last_named(items, n),
        DockNode::Tiles { items, .. } => last_named(items, n),
        DockNode::Split { children, .. } => taken_from_all(children, n),
    }
}

/// The panel a take returns from the first child that yields one.
pub open spec fn taken_from_all(children: Seq<DockNode>, n: Seq<char>) -> Option<DockPanel>
    decreases children,
{
    if children.len() == 0 {
        None
    } else {
        match taken_from_all(children.drop_last(), n) {
            Some(p) => Some(p),
            None => taken_from(children.last(), n),
        }
    }
}


pub proof fn lemma_take_step<A>(s: Seq<A>, i: int)
    requires
        0 <= i < s.len(),
    ensures
        s.take(i + 1).drop_last() == s.take(i),
        s.take(i + 1).last() == s[i],
        s.take(i + 1).len() == i + 1,
{
    assert(s.take(i + 1).drop_last() =~= s.take(i));
}

/// Apply a tile fallback to one index.
pub fn call_fallback<F: Fn(usize) -> TileMeta>(missing: &F, ix: usize) -> (m: TileMeta)
    requires
        fallback_callable(*missing),
    ensures
        forall|g: spec_fn(usize) -> TileMeta| fallback_agrees(*missing, g) ==> m == g(ix),
{
    missing(ix)
}

/// Drop the occurrences named `name` from a tab or tile strip, also returning the last one.
fn filter_named_strip(items: &Vec<DockPanel>, name: &str) -> (r: (Vec<DockPanel>, Vec<DockPanel>, Option<DockPanel>))
    ensures
        r.0@ == without_name(items@, name@),
        r.1@ == with_name(items@, name@),
        r.2 == last_named(items@, name@),
{
    let mut kept: Vec<DockPanel> = Vec::new();
    let mut removed: Vec<DockPanel> = Vec::new();
    let mut taken: Option<DockPanel> = None;
    let mut i: usize = 0;
    while i < items.len()
        invariant
            i <= items.len(),
            kept@ == without_name(items@.take(i as int), name@),
            removed@ == with_name(items@.take(i as int), name@),
            taken == last_named(items@.take(i as int), name@),
        decreases items.len() - i,
    {
        proof {
            lemma_take_step(items@, i as int);
            reveal_with_fuel(Seq::filter, 1);
        }
        if items[i].is_named(name) {
            taken = Some(items[i].share());
            removed.push(items[i].share());
        } else {
            kept.push(items[i].share());
        }
        i = i + 1;
    }
    assert(items@.take(items.len() as int) == items@);
    (kept, removed, taken)
}

/// Keep the tiles not named `name` with their metadata, falling back where it is missing.
fn filter_named_tiles<F: Fn(usize) -> TileMeta>(
    items: &Vec<DockPanel>,
    metas: &Vec<TileMeta>,
    name: &str,
    missing: &F,
) -> (r: (Vec<DockPanel>, Vec<TileMeta>, Vec<DockPanel>, Option<DockPanel>))
    requires
        fallback_callable(*missing),
    ensures
        forall|g: spec_fn(usize) -> TileMeta| fallback_agrees(*missing, g) ==> (r.0@, r.1@) == kept_tiles(items@, metas@, name@, g),
        r.2@ == with_name(items@, name@),
        r.3 == last_named(items@, name@),
{
    let mut kept: Vec<DockPanel> = Vec::new();
    let mut kept_metas: Vec<TileMeta> = Vec::new();
    let mut removed: Vec<DockPanel> = Vec::new();
    let mut taken: Option<DockPanel> = None;
    let mut i: usize = 0;
    while i < items.len()
        invariant
            i <= items.len(),
            fallback_callable(*missing),
            forall|g: spec_fn(usize) -> TileMeta| fallback_agrees(*missing, g) ==> (kept@, kept_metas@) == #[trigger] kept_tiles(items@.take(i as int), metas@, name@, g),
            removed@ == with_name(items@.take(i as int), name@),
            taken == last_named(items@.take(i as int), name@),
        decreases items.len() - i,
    {
        proof {
            lemma_take_step(items@, i as int);
            reveal_with_fuel(Seq::filter, 1);
        }
        let ghost kept0 = kept@;
        let ghost metas0 = kept_metas@;
        if items[i].is_named(name) {
            taken = Some(items[i].share());
            removed.push(items[i].share());
        } else {
            kept.push(items[i].share());
            let m = if i < metas.len() {
                metas[i]
            } else {
                call_fallback(missing, i)
            };
            kept_metas.push(m);
        }
        assert forall|g: spec_fn(usize) -> TileMeta| fallback_agrees(*missing, g) implies (kept@, kept_metas@) == #[trigger] kept_tiles(items@.take(i + 1), metas@, name@, g) by {
            assert((kept0, metas0) == kept_tiles(items@.take(i as int), metas@, name@, g));
        }
        i = i + 1;
    }
    assert(items@.take(items.len() as int) == items@);
    (kept, kept_metas, removed, taken)
}


/// A node after adding one panel: an empty node becomes the panel, a panel or tab group
/// becomes tabs with the new panel active at the end, and a split or tile group is replaced
/// by tabs holding only the new panel.
pub open spec fn with_added(node: DockNode, p: DockPanel) -> DockNode {
    match node {
        DockNode::Empty => DockNode::Panel(p),
        DockNode::Panel(existing) => DockNode::Tabs { items: seq![existing, p], active_ix: 1 },
        DockNode::Tabs { items, .. } => DockNode::Tabs {
            items: items.push(p),
            active_ix: items.len(),
        },
        DockNode::Split { .. } | DockNode::Tiles { .. } => DockNode::Tabs {
            items: seq![p],
            active_ix: 0,
        },
    }
}

/// Whether some panel of `s` has identity `id`.
pub open spec fn has_id(s: Seq<DockPanel>, id: u64) -> bool {
    exists|k: int| 0 <= k < s.len() && #[trigger] s[k].id == id
}

/// `acc` extended by each panel of `s`, in order, whose identity it does not hold yet.
pub open spec fn add_unique(acc: Seq<DockPanel>, s: Seq<DockPanel>) -> Seq<DockPanel>
    decreases s.len(),
{
    if s.len() == 0 {
        acc
    } else {
        let a = add_unique(acc, s.drop_last());
        if has_id(a, s.last().id) {
            a
        } else {
            a.push(s.last())
        }
    }
}


pub proof fn lemma_panels_of_all_prefix_len(children: Seq<DockNode>, i: int)
    requires
        0 <= i <= children.len(),
    ensures
        panels_of_all(children.take(i)).len() <= panels_of_all(children).len(),
    decreases children.len(),
{
    if i < children.len() {
        lemma_panels_of_all_prefix_len(children.drop_last(), i);
        assert(children.drop_last().take(i) == children.take(i));
    } else {
        assert(children.take(i) == children);
    }
}

pub proof fn lemma_first_named_concat(a: Seq<DockPanel>, b: Seq<DockPanel>, n: Seq<char>)
    ensures
        first_named(a + b, n) == (match first_named(a, n) {
            Some(p) => Some(p),
            None => first_named(b, n),
        }),
    decreases a.len(),
{
    if a.len() > 0 {
        assert((a + b).drop_first() == a.drop_first() + b);
        lemma_first_named_concat(a.drop_first(), b, n);
    } else {
        assert(a + b == b);
    }
}

pub proof fn lemma_first_named_prefix(children: Seq<DockNode>, i: int, n: Seq<char>)
    requires
        0 <= i <= children.len(),
        first_named(panels_of_all(children.take(i)), n) is Some,
    ensures
        first_named(panels_of_all(children), n) == first_named(panels_of_all(children.take(i)), n),
    decreases children.len(),
{
    if i < children.len() {
        assert(children.drop_last().take(i) == children.take(i));
        lemma_first_named_prefix(children.drop_last(), i, n);
        lemma_first_named_concat(panels_of_all(children.drop_last()), panels_of(children.last()), n);
    } else {
        assert(children.take(i) == children);
    }
}

pub proof fn lemma_add_unique_concat(acc: Seq<DockPanel>, a: Seq<DockPanel>, b: Seq<DockPanel>)
    ensures
        add_unique(acc, a + b) == add_unique(add_unique(acc, a), b),
    decreases b.len(),
{
    if b.len() == 0 {
        assert(a + b == a);
    } else {
        lemma_add_unique_concat(acc, a, b.drop_last());
        assert((a + b).drop_last() == a + b.drop_last());
    }
}

/// The first panel of `items` with the given name.
fn find_named_in(items: &Vec<DockPanel>, name: &str) -> (r: Option<DockPanel>)
    ensures
        r == first_named(items@, name@),
{
    let mut i: usize = 0;
    assert(items@.skip(0) == items@);
    while i < items.len()
        invariant
            i <= items.len(),
            first_named(items@, name@) == first_named(items@.skip(i as int), name@),
        decreases items.len() - i,
    {
        assert(items@.skip(i as int).drop_first() == items@.skip(i + 1));
        if items[i].is_named(name) {
            return Some(items[i].share());
        }
        i = i + 1;
    }
    None
}

/// Push `panel` unless `panels` already holds its identity.
fn push_unique(panels: &mut Vec<DockPanel>, panel: &DockPanel)
    ensures
        final(panels)@ == (if has_id(old(panels)@, panel.id) { old(panels)@ } else { old(panels)@.push(*panel) }),
{
    let mut i: usize = 0;
    while i < panels.len()
        invariant
            i <= panels.len(),
            forall|k: int| 0 <= k < i ==> panels@[k].id != panel.id,
        decreases panels.len() - i,
    {
        if panels[i].id == panel.id {
            return;
        }
        i = i + 1;
    }
    panels.push(panel.share());
}

/// Push each panel of `items` whose identity `panels` does not hold yet.
pub(crate) fn push_all_unique(panels: &mut Vec<DockPanel>, items: &Vec<DockPanel>)
    ensures
        final(panels)@ == add_unique(old(panels)@, items@),
{
    let ghost start = panels@;
    let mut i: usize = 0;
    while i < items.len()
        invariant
            i <= items.len(),
            panels@ == add_unique(start, items@.take(i as int)),
        decreases items.len() - i,
    {
        proof { lemma_take_step(items@, i as int); }
        push_unique(panels, &items[i]);
        i = i + 1;
    }
    assert(items@.take(items.len() as int) == items@);
}


/// A node after pushing `p` into its first tab group, in traversal order; `false` and the
/// node unchanged when it holds no tab group.
pub open spec fn pushed_first_tabs(node: DockNode, p: DockPanel) -> (DockNode, bool)
    decreases node,
{
    match node {
        DockNode::Tabs { items, .. } => (
            DockNode::Tabs { items: items.push(p), active_ix: items.len() },
            true,
        ),
        DockNode::Split { horizontal, children, sizes } => {
            let (cs, ok) = pushed_first_tabs_all(children, p);
            if ok {
                (DockNode::Split { horizontal, children: cs, sizes }, true)
            } else {
                (node, false)
            }
        },
        _ => (node, false),
    }
}

/// Children after pushing `p` into the first child that accepts it.
pub open spec fn pushed_first_tabs_all(children: Seq<DockNode>, p: DockPanel) -> (Seq<DockNode>, bool)
    decreases children,
{
    if children.len() == 0 {
        (children, false)
    } else {
        let (c0, ok0) = pushed_first_tabs(children[0], p);
        if ok0 {
            (children.update(0, c0), true)
        } else {
            let (rest, ok) = pushed_first_tabs_all(children.drop_first(), p);
            (seq![children[0]] + rest, ok)
        }
    }
}

/// Split-only path to the panel, tab or tile node holding the first occurrence of `n`.
pub open spec fn panel_path(node: DockNode, n: Seq<char>) -> Option<Seq<usize>>
    decreases node,
{
    match node {
        DockNode::Empty => None,
        DockNode::Panel(p) => if p.name@ == n { Some(Seq::empty()) } else { None },
        DockNode::Tabs { items, .. } => if first_named(items, n) is Some {
            Some(Seq::empty())
        } else {
            None
        },
        DockNode::Tiles { items, .. } => if first_named(items, n) is Some {
            Some(Seq::empty())
        } else {
            None
        },
        DockNode::Split { children, .. } => panel_path_all(children, n, 0),
    }
}

/// Path through the first of `children` (numbered from `base`) that holds `n`.
pub open spec fn panel_path_all(children: Seq<DockNode>, n: Seq<char>, base: nat) -> Option<Seq<usize>>
    decreases children,
{
    if children.len() == 0 {
        None
    } else {
        match panel_path(children[0], n) {
            Some(sub) => Some(seq![base as usize] + sub),
            None => panel_path_all(children.drop_first(), n, base + 1),
        }
    }
}

/// The first panel name, in traversal order, other than `exclude`.
pub open spec fn first_name_excluding(node: DockNode, exclude: Seq<char>) -> Option<Seq<char>> {
    match first_not_named(panels_of(node), exclude) {
        Some(p) => Some(p.name@),
        None => None,
    }
}

/// The first panel of `s` not named `n`.
pub open spec fn first_not_named(s: Seq<DockPanel>, n: Seq<char>) -> Option<DockPanel>
    decreases s.len(),
{
    if s.len() == 0 {
        None
    } else if s[0].name@ != n {
        Some(s[0])
    } else {
        first_not_named(s.drop_first(), n)
    }
}


pub proof fn lemma_pushed_first_tabs_all(children: Seq<DockNode>, p: DockPanel, i: int)
    requires
        0 <= i <= children.len(),
        forall|j: int| 0 <= j < i ==> !(#[trigger] pushed_first_tabs(children[j], p)).1,
    ensures
        i == children.len() ==> pushed_first_tabs_all(children, p) == (children, false),
        i < children.len() && pushed_first_tabs(children[i], p).1 ==> pushed_first_tabs_all(children, p)
            == (children.update(i, pushed_first_tabs(children[i], p).0), true),
    decreases i,
{
    if children.len() > 0 && i > 0 {
        let rest = children.drop_first();
        assert forall|j: int| 0 <= j < i - 1 implies !(#[trigger] pushed_first_tabs(rest[j], p)).1 by {
            assert(rest[j] == children[j + 1]);
        }
        lemma_pushed_first_tabs_all(rest, p, i - 1);
        lemma_pushed_first_tabs_unchanged(children[0], p);
        if i == children.len() {
            assert(seq![children[0]] + rest == children);
        } else if pushed_first_tabs(children[i], p).1 {
            assert(rest[i - 1] == children[i]);
            assert(seq![children[0]] + rest.update(i - 1, pushed_first_tabs(children[i], p).0)
                == children.update(i, pushed_first_tabs(children[i], p).0));
        }
    } else if children.len() == 0 {
    }
}

pub proof fn lemma_pushed_first_tabs_unchanged(node: DockNode, p: DockPanel)
    ensures
        !pushed_first_tabs(node, p).1 ==> pushed_first_tabs(node, p).0 == node,
{
}

pub proof fn lemma_panel_path_all(children: Seq<DockNode>, n: Seq<char>, base: nat, i: int)
    requires
        0 <= i <= children.len(),
        forall|j: int| 0 <= j < i ==> (#[trigger] panel_path(children[j], n)) is None,
    ensures
        i == children.len() ==> panel_path_all(children, n, base) is None,
        i < children.len() && panel_path(children[i], n) is Some ==> panel_path_all(children, n, base)
            == Some(seq![(base + i) as usize] + panel_path(children[i], n)->0),
    decreases i,
{
    if children.len() > 0 && i > 0 {
        let rest = children.drop_first();
        assert(panel_path(children[0], n) is None);
        assert forall|j: int| 0 <= j < i - 1 implies (#[trigger] panel_path(rest[j], n)) is None by {
            assert(rest[j] == children[j + 1]);
        }
        lemma_panel_path_all(rest, n, base + 1, i - 1);
        if i < children.len() {
            assert(rest[i - 1] == children[i]);
        }
    }
}

pub proof fn lemma_first_not_named_concat(a: Seq<DockPanel>, b: Seq<DockPanel>, n: Seq<char>)
    ensures
        first_not_named(a + b, n) == (match first_not_named(a, n) {
            Some(p) => Some(p),
            None => first_not_named(b, n),
        }),
    decreases a.len(),
{
    if a.len() > 0 {
        assert((a + b).drop_first() == a.drop_first() + b);
        lemma_first_not_named_concat(a.drop_first(), b, n);
    } else {
        assert(a + b == b);
    }
}

pub proof fn lemma_first_not_named_prefix(children: Seq<DockNode>, i: int, n: Seq<char>)
    requires
        0 <= i <= children.len(),
        first_not_named(panels_of_all(children.take(i)), n) is Some,
    ensures
        first_not_named(panels_of_all(children), n) == first_not_named(panels_of_all(children.take(i)), n),
    decreases children.len(),
{
    if i < children.len() {
        assert(children.drop_last().take(i) == children.take(i));
        lemma_first_not_named_prefix(children.drop_last(), i, n);
        lemma_first_not_named_concat(panels_of_all(children.drop_last()), panels_of(children.last()), n);
    } else {
        assert(children.take(i) == children);
    }
}

/// The first panel of `items` not named `exclude`.
fn find_not_named_in(items: &Vec<DockPanel>, exclude: &str) -> (r: Option<DockPanel>)
    ensures
        r == first_not_named(items@, exclude@),
{
    let mut i: usize = 0;
    assert(items@.skip(0) == items@);
    while i < items.len()
        invariant
            i <= items.len(),
            first_not_named(items@, exclude@) == first_not_named(items@.skip(i as int), exclude@),
        decreases items.len() - i,
    {
        assert(items@.skip(i as int).drop_first() == items@.skip(i + 1));
        if !items[i].is_named(exclude) {
            return Some(items[i].share());
        }
        i = i + 1;
    }
    None
}


/// Whether `n` is one of `names`.
pub open spec fn in_names(n: Seq<char>, names: Seq<String>) -> bool {
    exists|k: int| 0 <= k < names.len() && #[trigger] names[k]@ == n
}

/// Whether some panel of `s` carries one of `names`.
pub open spec fn any_named(s: Seq<DockPanel>, names: Seq<String>) -> bool {
    exists|k: int| 0 <= k < s.len() && in_names(#[trigger] s[k].name@, names)
}

/// Whether a panel of `node` carries the name `n`.
pub open spec fn holds(node: DockNode, n: Seq<char>) -> bool {
    exists|k: int| 0 <= k < panels_of(node).len() && #[trigger] panels_of(node)[k].name@ == n
}

/// A node after restoring `p` at `ix` into the first tab strip, in traversal order, holding
/// one of `siblings`; `false` and the node unchanged when no tab strip holds one (a lone
/// sibling panel outside any tab strip does not count).
pub open spec fn inserted_home(node: DockNode, p: DockPanel, ix: nat, siblings: Seq<String>) -> (DockNode, bool)
    decreases node,
{
    match node {
        DockNode::Tabs { items, .. } => if any_named(items, siblings) {
            let at = if ix < items.len() { ix } else { items.len() };
            (DockNode::Tabs { items: items.insert(at as int, p), active_ix: at }, true)
        } else {
            (node, false)
        },
        DockNode::Split { horizontal, children, sizes } => {
            let (cs, ok) = inserted_home_all(children, p, ix, siblings);
            if ok {
                (DockNode::Split { horizontal, children: cs, sizes }, true)
            } else {
                (node, false)
            }
        },
        _ => (node, false),
    }
}

/// Children after restoring `p` into the first child that accepts it.
pub open spec fn inserted_home_all(children: Seq<DockNode>, p: DockPanel, ix: nat, siblings: Seq<String>) -> (Seq<DockNode>, bool)
    decreases children,
{
    if children.len() == 0 {
        (children, false)
    } else {
        let (c0, ok0) = inserted_home(children[0], p, ix, siblings);
        if ok0 {
            (children.update(0, c0), true)
        } else {
            let (rest, ok) = inserted_home_all(children.drop_first(), p, ix, siblings);
            (seq![children[0]] + rest, ok)
        }
    }
}


/// Whether some tab strip of the node, descending through splits, holds a panel named in
/// `siblings`.
pub open spec fn has_home_strip(node: DockNode, siblings: Seq<String>) -> bool
    decreases node,
{
    match node {
        DockNode::Tabs { items, .. } => any_named(items, siblings),
        DockNode::Split { children, .. } => has_home_strip_all(children, siblings),
        _ => false,
    }
}

/// Whether some child holds a home tab strip.
pub open spec fn has_home_strip_all(children: Seq<DockNode>, siblings: Seq<String>) -> bool
    decreases children,
{
    if children.len() == 0 {
        false
    } else {
        has_home_strip(children[0], siblings) || has_home_strip_all(children.drop_first(), siblings)
    }
}

/// Restoring into a home strip succeeds exactly when some tab strip holds a sibling.
pub proof fn lemma_inserted_home_iff_strip(node: DockNode, p: DockPanel, ix: nat, siblings: Seq<String>)
    ensures
        inserted_home(node, p, ix, siblings).1 == has_home_strip(node, siblings),
    decreases node,
{
    match node {
        DockNode::Split { children, .. } => {
            lemma_inserted_home_all_iff_strip(children, p, ix, siblings);
        },
        _ => {},
    }
}

proof fn lemma_inserted_home_all_iff_strip(children: Seq<DockNode>, p: DockPanel, ix: nat, siblings: Seq<String>)
    ensures
        inserted_home_all(children, p, ix, siblings).1 == has_home_strip_all(children, siblings),
    decreases children,
{
    if children.len() > 0 {
        lemma_inserted_home_iff_strip(children[0], p, ix, siblings);
        lemma_inserted_home_all_iff_strip(children.drop_first(), p, ix, siblings);
    }
}

pub proof fn lemma_inserted_home_unchanged(node: DockNode, p: DockPanel, ix: nat, siblings: Seq<String>)
    ensures
        !inserted_home(node, p, ix, siblings).1 ==> inserted_home(node, p, ix, siblings).0 == node,
{
}

pub proof fn lemma_inserted_home_all(children: Seq<DockNode>, p: DockPanel, ix: nat, siblings: Seq<String>, i: int)
    requires
        0 <= i <= children.len(),
        forall|j: int| 0 <= j < i ==> !(#[trigger] inserted_home(children[j], p, ix, siblings)).1,
    ensures
        i == children.len() ==> inserted_home_all(children, p, ix, siblings) == (children, false),
        i < children.len() && inserted_home(children[i], p, ix, siblings).1 ==> inserted_home_all(children, p, ix, siblings)
            == (children.update(i, inserted_home(children[i], p, ix, siblings).0), true),
    decreases i,
{
    if children.len() > 0 && i > 0 {
        let rest = children.drop_first();
        assert(!inserted_home(children[0], p, ix, siblings).1);
        assert forall|j: int| 0 <= j < i - 1 implies !(#[trigger] inserted_home(rest[j], p, ix, siblings)).1 by {
            assert(rest[j] == children[j + 1]);
        }
        lemma_inserted_home_all(rest, p, ix, siblings, i - 1);
        lemma_inserted_home_unchanged(children[0], p, ix, siblings);
        if i == children.len() {
            assert(seq![children[0]] + rest == children);
        } else if inserted_home(children[i], p, ix, siblings).1 {
            assert(rest[i - 1] == children[i]);
            assert(seq![children[0]] + rest.update(i - 1, inserted_home(children[i], p, ix, siblings).0)
                == children.update(i, inserted_home(children[i], p, ix, siblings).0));
        }
    }
}

/// Whether `name` is one of `names`.
pub fn name_in(name: &str, names: &Vec<String>) -> (r: bool)
    ensures
        r == in_names(name@, names@),
{
    let mut i: usize = 0;
    while i < names.len()
        invariant
            i <= names.len(),
            forall|k: int| 0 <= k < i ==> names@[k]@ != name@,
        decreases names.len() - i,
    {
        if str_eq(names[i].as_str(), name) {
            return true;
        }
        i = i + 1;
    }
    false
}

/// Whether some panel of `items` carries one of `names`.
fn any_named_in(items: &Vec<DockPanel>, names: &Vec<String>) -> (r: bool)
    ensures
        r == any_named(items@, names@),
{
    let mut i: usize = 0;
    while i < items.len()
        invariant
            i <= items.len(),
            forall|k: int| 0 <= k < i ==> !in_names(#[trigger] items@[k].name@, names@),
        decreases items.len() - i,
    {
        if name_in(items[i].name.as_str(), names) {
            return true;
        }
        i = i + 1;
    }
    false
}


pub proof fn lemma_first_named_some(s: Seq<DockPanel>, n: Seq<char>)
    requires
        first_named(s, n) is Some,
    ensures
        exists|k: int| 0 <= k < s.len() && #[trigger] s[k].name@ == n,
    decreases s.len(),
{
    if s[0].name@ != n {
        lemma_first_named_some(s.drop_first(), n);
        let k = choose|k: int| 0 <= k < s.drop_first().len() && #[trigger] s.drop_first()[k].name@ == n;
        assert(s[k + 1].name@ == n);
    }
}

pub proof fn lemma_first_named_none(s: Seq<DockPanel>, n: Seq<char>, i: int)
    requires
        first_named(s, n) is None,
        0 <= i < s.len(),
    ensures
        s[i].name@ != n,
    decreases s.len(),
{
    if i > 0 {
        lemma_first_named_none(s.drop_first(), n, i - 1);
    }
}


/// Rank of a name among the pinned names: the position of its first occurrence, or the
/// number of pinned names when it is not pinned.
pub open spec fn pin_rank(n: Seq<char>, pinned: Seq<String>) -> nat
    decreases pinned.len(),
{
    if pinned.len() == 0 {
        0
    } else if pinned[0]@ == n {
        0
    } else {
        1 + pin_rank(n, pinned.drop_first())
    }
}

/// The panels of `items` whose pin rank is below `k`, grouped by rank in increasing order,
/// each group in its previous order.
pub open spec fn ranked_upto(items: Seq<DockPanel>, pinned: Seq<String>, k: nat) -> Seq<DockPanel>
    decreases k,
{
    if k == 0 {
        Seq::empty()
    } else {
        ranked_upto(items, pinned, (k - 1) as nat)
            + items.filter(|p: DockPanel| pin_rank(p.name@, pinned) == (k - 1) as nat)
    }
}

/// A tab order with pinned panels leading in pinned order, the others after them in their
/// previous order: the stable sort of `items` by pin rank.
pub open spec fn pinned_order(items: Seq<DockPanel>, pinned: Seq<String>) -> Seq<DockPanel> {
    ranked_upto(items, pinned, pinned.len() + 1)
}

/// The identities of `s`, in order.
pub open spec fn ids(s: Seq<DockPanel>) -> Seq<u64> {
    s.map_values(|p: DockPanel| p.id)
}

/// Index of the first panel of `s` with identity `id`, or zero when there is none.
pub open spec fn first_id_index(s: Seq<DockPanel>, id: u64) -> nat
    decreases s.len(),
{
    if s.len() == 0 {
        0
    } else if s[0].id == id {
        0
    } else if has_id(s.drop_first(), id) {
        1 + first_id_index(s.drop_first(), id)
    } else {
        0
    }
}

/// Whether a node holds any pinned panel.
pub open spec fn holds_pinned(node: DockNode, pinned: Seq<String>) -> bool {
    any_named(panels_of(node), pinned)
}

/// Whether a child holding a pinned panel follows one that holds none.
pub open spec fn pinned_follows_unpinned(children: Seq<DockNode>, pinned: Seq<String>) -> bool {
    exists|i: int, j: int|
        0 <= i < j < children.len() && !holds_pinned(#[trigger] children[i], pinned) && holds_pinned(
            #[trigger] children[j],
            pinned,
        )
}

/// Children paired with their stored sizes, slots past the stored sizes being flexible.
pub open spec fn with_sizes(children: Seq<DockNode>, sizes: Seq<Option<u32>>) -> Seq<(DockNode, Option<u32>)> {
    Seq::new(children.len(), |i: int| (children[i], size_at(sizes, i)))
}

/// Slots holding a pinned panel first, then the others, each group in its previous order.
pub open spec fn lead_pinned(slots: Seq<(DockNode, Option<u32>)>, pinned: Seq<String>) -> Seq<(DockNode, Option<u32>)> {
    slots.filter(|s: (DockNode, Option<u32>)| holds_pinned(s.0, pinned))
        + slots.filter(|s: (DockNode, Option<u32>)| !holds_pinned(s.0, pinned))
}

/// A node after moving pinned panels to the front of every tab group and, at horizontal
/// splits, the slots holding them before the others; with whether anything moved.
pub open spec fn enforced(node: DockNode, pinned: Seq<String>) -> (DockNode, bool)
    decreases node,
{
    match node {
        DockNode::Tabs { items, active_ix } => {
            let ordered = pinned_order(items, pinned);
            let active = if active_ix < items.len() {
                first_id_index(ordered, items[active_ix as int].id)
            } else {
                active_ix
            };
            (DockNode::Tabs { items: ordered, active_ix: active }, ids(ordered) != ids(items))
        },
        DockNode::Split { horizontal, children, sizes } => {
            let (cs, changed) = enforced_all(children, pinned);
            if horizontal && pinned_follows_unpinned(cs, pinned) {
                let slots = lead_pinned(with_sizes(cs, sizes), pinned);
                (
                    DockNode::Split {
                        horizontal,
                        children: slots.map_values(|s: (DockNode, Option<u32>)| s.0),
                        sizes: slots.map_values(|s: (DockNode, Option<u32>)| s.1),
                    },
                    true,
                )
            } else {
                (DockNode::Split { horizontal, children: cs, sizes }, changed)
            }
        },
        _ => (node, false),
    }
}

/// Every child enforced, with whether any of them changed.
pub open spec fn enforced_all(children: Seq<DockNode>, pinned: Seq<String>) -> (Seq<DockNode>, bool)
    decreases children,
{
    if children.len() == 0 {
        (children, false)
    } else {
        let (cs, changed) = enforced_all(children.drop_last(), pinned);
        let (c, ch) = enforced(children.last(), pinned);
        (cs.push(c), changed || ch)
    }
}


/// Pin rank of a name.
fn pin_rank_of(name: &str, pinned: &Vec<String>) -> (r: usize)
    ensures
        r == pin_rank(name@, pinned@),
        r <= pinned.len(),
{
    let mut i: usize = 0;
    assert(pinned@.skip(0) == pinned@);
    proof { lemma_pin_rank_bound(name@, pinned@); }
    while i < pinned.len()
        invariant
            i <= pinned.len(),
            pin_rank(name@, pinned@) == i + pin_rank(name@, pinned@.skip(i as int)),
            pin_rank(name@, pinned@.skip(i as int)) <= pinned@.len() - i,
        decreases pinned.len() - i,
    {
        assert(pinned@.skip(i as int).drop_first() == pinned@.skip(i + 1));
        if str_eq(pinned[i].as_str(), name) {
            return i;
        }
        i = i + 1;
    }
    i
}

pub proof fn lemma_pin_rank_bound(n: Seq<char>, pinned: Seq<String>)
    ensures
        pin_rank(n, pinned) <= pinned.len(),
    decreases pinned.len(),
{
    if pinned.len() > 0 {
        lemma_pin_rank_bound(n, pinned.drop_first());
    }
}

/// Stable sort of a tab strip by pin rank.
fn order_pinned(items: &Vec<DockPanel>, pinned: &Vec<String>) -> (r: Vec<DockPanel>)
    requires
        pinned.len() < usize::MAX,
    ensures
        r@ == pinned_order(items@, pinned@),
{
    let mut ranks: Vec<usize> = Vec::new();
    let mut i: usize = 0;
    while i < items.len()
        invariant
            i <= items.len(),
            ranks@.len() == i,
            forall|j: int| 0 <= j < i ==> ranks@[j] == pin_rank(#[trigger] items@[j].name@, pinned@),
        decreases items.len() - i,
    {
        let rank = pin_rank_of(items[i].name.as_str(), pinned);
        ranks.push(rank);
        i = i + 1;
    }
    let mut out: Vec<DockPanel> = Vec::new();
    let mut k: usize = 0;
    while k <= pinned.len()
        invariant
            k <= pinned.len() + 1,
            pinned.len() < usize::MAX,
            ranks@.len() == items@.len(),
            forall|j: int| 0 <= j < items@.len() ==> ranks@[j] == pin_rank(#[trigger] items@[j].name@, pinned@),
            out@ == ranked_upto(items@, pinned@, k as nat),
        decreases pinned.len() + 1 - k,
    {
        let ghost before = out@;
        let ghost pred = |p: DockPanel| pin_rank(p.name@, pinned@) == k as nat;
        let mut i: usize = 0;
        while i < items.len()
            invariant
                i <= items.len(),
                pred == (|p: DockPanel| pin_rank(p.name@, pinned@) == k as nat),
                ranks@.len() == items@.len(),
                forall|j: int| 0 <= j < items@.len() ==> ranks@[j] == pin_rank(#[trigger] items@[j].name@, pinned@),
                out@ == before + items@.take(i as int).filter(pred),
            decreases items.len() - i,
        {
            proof {
                lemma_take_step(items@, i as int);
                reveal_with_fuel(Seq::filter, 1);
                assert(items@.take(i + 1).filter(pred) == (if pred(items@[i as int]) {
                    items@.take(i as int).filter(pred).push(items@[i as int])
                } else {
                    items@.take(i as int).filter(pred)
                }));
            }
            assert(pred(items@[i as int]) == (ranks@[i as int] == k));
            if ranks[i] == k {
                assert(before + items@.take(i as int).filter(pred).push(items@[i as int])
                    == (before + items@.take(i as int).filter(pred)).push(items@[i as int]));
                out.push(items[i].share());
            }
            i = i + 1;
        }
        assert(items@.take(items.len() as int) == items@);
        k = k + 1;
    }
    out
}

/// Whether two strips hold the same identities in the same order.
fn same_ids(a: &Vec<DockPanel>, b: &Vec<DockPanel>) -> (r: bool)
    ensures
        r == (ids(a@) == ids(b@)),
{
    if a.len() != b.len() {
        proof {
            if ids(a@) == ids(b@) {
                assert(ids(a@).len() == ids(b@).len());
            }
        }
        return false;
    }
    let mut i: usize = 0;
    while i < a.len()
        invariant
            a.len() == b.len(),
            i <= a.len(),
            forall|j: int| 0 <= j < i ==> a@[j].id == b@[j].id,
        decreases a.len() - i,
    {
        if a[i].id != b[i].id {
            proof {
                if ids(a@) == ids(b@) {
                    assert(ids(a@)[i as int] == ids(b@)[i as int]);
                }
            }
            return false;
        }
        i = i + 1;
    }
    assert(ids(a@) =~= ids(b@));
    true
}

/// Index of the first panel with identity `id`, or zero.
fn id_index(s: &Vec<DockPanel>, id: u64) -> (r: usize)
    ensures
        r == first_id_index(s@, id),
{
    let mut i: usize = 0;
    assert(s@.skip(0) == s@);
    while i < s.len()
        invariant
            i <= s.len(),
            forall|j: int| 0 <= j < i ==> s@[j].id != id,
            first_id_index(s@, id) == (if has_id(s@.skip(i as int), id) { i + first_id_index(s@.skip(i as int), id) } else { 0 }),
        decreases s.len() - i,
    {
        assert(s@.skip(i as int).drop_first() == s@.skip(i + 1));
        if s[i].id == id {
            assert(has_id(s@.skip(i as int), id)) by {
                assert(s@.skip(i as int)[0].id == id);
            }
            return i;
        }
        proof {
            if has_id(s@.skip(i as int), id) {
                let k = choose|k: int| 0 <= k < s@.skip(i as int).len() && #[trigger] s@.skip(i as int)[k].id == id;
                assert(k != 0);
                assert(s@.skip(i + 1)[k - 1].id == id);
            }
            if has_id(s@.skip(i + 1), id) {
                let k = choose|k: int| 0 <= k < s@.skip(i + 1).len() && #[trigger] s@.skip(i + 1)[k].id == id;
                assert(s@.skip(i as int)[k + 1].id == id);
            }
        }
        i = i + 1;
    }
    0
}


pub proof fn lemma_filter_take_step<A>(s: Seq<A>, pred: spec_fn(A) -> bool, i: int)
    requires
        0 <= i < s.len(),
    ensures
        s.take(i + 1).filter(pred) == (if pred(s[i]) {
            s.take(i).filter(pred).push(s[i])
        } else {
            s.take(i).filter(pred)
        }),
{
    lemma_take_step(s, i);
    reveal_with_fuel(Seq::filter, 1);
}

pub proof fn lemma_enforced_unchanged(node: DockNode, pinned: Seq<String>)
    ensures
        !(node is Tabs) && !(node is Split) ==> enforced(node, pinned) == (node, false),
{
}

/// The slot order of a horizontal split that leads with its pinned slots.
fn lead_pinned_slots(
    cs: Vec<DockItem>,
    sizes: &Vec<Option<u32>>,
    flags: &Vec<bool>,
    Ghost(pinned): Ghost<Seq<String>>,
) -> (r: (Vec<DockItem>, Vec<Option<u32>>))
    requires
        flags@.len() == cs@.len(),
        forall|j: int| 0 <= j < cs@.len() ==> flags@[j] == holds_pinned(#[trigger] view_items(cs@)[j], pinned),
    ensures
        view_items(r.0@) == lead_pinned(with_sizes(view_items(cs@), sizes@), pinned).map_values(|s: (DockNode, Option<u32>)| s.0),
        r.1@ == lead_pinned(with_sizes(view_items(cs@), sizes@), pinned).map_values(|s: (DockNode, Option<u32>)| s.1),
{
    let ghost v = view_items(cs@);
    let ghost slots = with_sizes(v, sizes@);
    proof { lemma_view_items(cs@); }
    let ghost orig = cs@;
    let mut cs = cs;
    let mut out: Vec<DockItem> = Vec::new();
    let mut out_sizes: Vec<Option<u32>> = Vec::new();
    let ghost mut pairs: Seq<(DockNode, Option<u32>)> = Seq::empty();
    let ghost pin = |s: (DockNode, Option<u32>)| holds_pinned(s.0, pinned);
    let ghost unpin = |s: (DockNode, Option<u32>)| !holds_pinned(s.0, pinned);
    let mut pass: usize = 0;
    while pass < 2
        invariant
            pass <= 2,
            cs@.len() == orig.len(),
            flags@.len() == orig.len(),
            v == view_items(orig),
            v.len() == orig.len(),
            slots == with_sizes(v, sizes@),
            forall|j: int| 0 <= j < orig.len() ==> flags@[j] == holds_pinned(#[trigger] v[j], pinned),
            forall|j: int| 0 <= j < orig.len() ==> (pass == 0 || (pass == 1 && !flags@[j])) ==> cs@[j] == orig[j],
            forall|j: int| 0 <= j < orig.len() ==> #[trigger] view_item(orig[j]) == v[j],
            pin == (|s: (DockNode, Option<u32>)| holds_pinned(s.0, pinned)),
            unpin == (|s: (DockNode, Option<u32>)| !holds_pinned(s.0, pinned)),
            pairs == (if pass == 0 { Seq::empty() } else if pass == 1 { slots.filter(pin) } else { slots.filter(pin) + slots.filter(unpin) }),
            view_items(out@) == pairs.map_values(|s: (DockNode, Option<u32>)| s.0),
            out_sizes@ == pairs.map_values(|s: (DockNode, Option<u32>)| s.1),
        decreases 2 - pass,
    {
        let want = pass == 0;
        let ghost base = pairs;
        let ghost pred = if want { pin } else { unpin };
        let mut i: usize = 0;
        while i < cs.len()
            invariant
                i <= cs.len(),
                want == (pass == 0),
                pass < 2,
                cs@.len() == orig.len(),
                flags@.len() == orig.len(),
                v.len() == orig.len(),
                slots == with_sizes(v, sizes@),
                pred == (if want { pin } else { unpin }),
                pin == (|s: (DockNode, Option<u32>)| holds_pinned(s.0, pinned)),
                unpin == (|s: (DockNode, Option<u32>)| !holds_pinned(s.0, pinned)),
                forall|j: int| 0 <= j < orig.len() ==> flags@[j] == holds_pinned(#[trigger] v[j], pinned),
                forall|j: int| i <= j < orig.len() ==> (pass == 0 || (pass == 1 && !flags@[j])) ==> cs@[j] == orig[j],
                forall|j: int| 0 <= j < i && pass == 0 ==> flags@[j] != want ==> cs@[j] == orig[j],
                forall|j: int| 0 <= j < orig.len() ==> #[trigger] view_item(orig[j]) == v[j],
                pairs == base + slots.take(i as int).filter(pred),
                view_items(out@) == pairs.map_values(|s: (DockNode, Option<u32>)| s.0),
                out_sizes@ == pairs.map_values(|s: (DockNode, Option<u32>)| s.1),
            decreases cs.len() - i,
        {
            proof { lemma_filter_take_step(slots, pred, i as int); }
            if flags[i] == want {
                let mut child = DockItem::Empty;
                std::mem::swap(&mut child, &mut cs[i]);
                let size = if i < sizes.len() { sizes[i] } else { None };
                let ghost pair = (view_item(child), size);
                assert(child == orig[i as int]);
                assert(view_item(child) == v[i as int]);
                assert(size == size_at(sizes@, i as int));
                assert(slots[i as int] == pair);
                assert(pred(slots[i as int]));
                proof {
                    assert(out@.push(child).drop_last() == out@);
                    pairs = pairs.push(pair);
                    assert(base + slots.take(i + 1).filter(pred) == (base + slots.take(i as int).filter(pred)).push(pair));
                }
                out.push(child);
                out_sizes.push(size);
                assert(view_items(out@) =~= pairs.map_values(|s: (DockNode, Option<u32>)| s.0));
                assert(out_sizes@ =~= pairs.map_values(|s: (DockNode, Option<u32>)| s.1));
            } else {
                assert(!pred(slots[i as int]));
            }
            i = i + 1;
        }
        assert(slots.take(slots.len() as int) == slots);
        pass = pass + 1;
    }
    (out, out_sizes)
}


/// A node after appending repaired panels to it: an empty node becomes the panel or a tab
/// group, a panel becomes a tab group led by it, tabs and tiles grow at the end (new tiles get
/// fallback geometry for their index), and a split passes them to its first child.
pub open spec fn repaired(node: DockNode, ps: Seq<DockPanel>, d: spec_fn(usize) -> TileMeta) -> DockNode
    decreases node,
{
    if ps.len() == 0 {
        node
    } else {
        match node {
            DockNode::Empty => if ps.len() == 1 {
                DockNode::Panel(ps[0])
            } else {
                DockNode::Tabs { items: ps, active_ix: 0 }
            },
            DockNode::Panel(existing) => DockNode::Tabs { items: seq![existing] + ps, active_ix: 0 },
            DockNode::Tabs { items, active_ix } => DockNode::Tabs { items: items + ps, active_ix },
            DockNode::Tiles { items, metas } => DockNode::Tiles {
                items: items + ps,
                metas: metas + fallback_run(d, items.len() as int, ps.len()),
            },
            DockNode::Split { horizontal, children, sizes } => if children.len() > 0 {
                DockNode::Split {
                    horizontal,
                    children: children.update(0, repaired(children[0], ps, d)),
                    sizes,
                }
            } else {
                node
            },
        }
    }
}

/// Whether every name of `names` is held by `node`.
pub open spec fn holds_all(node: DockNode, names: Seq<Seq<char>>) -> bool {
    forall|k: int| 0 <= k < names.len() ==> holds(node, #[trigger] names[k])
}

/// Split-only path to the smallest node holding every name of `names`: descend while one
/// child still holds them all.
pub open spec fn smallest_with(node: DockNode, names: Seq<Seq<char>>) -> Option<Seq<usize>>
    decreases node,
{
    if !holds_all(node, names) {
        None
    } else {
        match node {
            DockNode::Split { children, .. } => match smallest_with_all(children, names, 0) {
                Some(p) => Some(p),
                None => Some(Seq::empty()),
            },
            _ => Some(Seq::empty()),
        }
    }
}

/// Path through the first of `children` (numbered from `base`) holding all of `names`.
pub open spec fn smallest_with_all(children: Seq<DockNode>, names: Seq<Seq<char>>, base: nat) -> Option<Seq<usize>>
    decreases children,
{
    if children.len() == 0 {
        None
    } else {
        match smallest_with(children[0], names) {
            Some(sub) => Some(seq![base as usize] + sub),
            None => smallest_with_all(children.drop_first(), names, base + 1),
        }
    }
}

/// The names of `names` that `node` holds, in order.
pub open spec fn present_names(node: DockNode, names: Seq<String>) -> Seq<Seq<char>> {
    names.map_values(|s: String| s@).filter(|n: Seq<char>| holds(node, n))
}


pub proof fn lemma_holds_first_named(node: DockNode, n: Seq<char>)
    ensures
        holds(node, n) == (first_named(panels_of(node), n) is Some),
{
    if first_named(panels_of(node), n) is Some {
        lemma_first_named_some(panels_of(node), n);
    } else {
        if holds(node, n) {
            let k = choose|k: int| 0 <= k < panels_of(node).len() && #[trigger] panels_of(node)[k].name@ == n;
            lemma_first_named_none(panels_of(node), n, k);
        }
    }
}

pub proof fn lemma_smallest_with_all(children: Seq<DockNode>, names: Seq<Seq<char>>, base: nat, i: int)
    requires
        0 <= i <= children.len(),
        forall|j: int| 0 <= j < i ==> (#[trigger] smallest_with(children[j], names)) is None,
    ensures
        i == children.len() ==> smallest_with_all(children, names, base) is None,
        i < children.len() && smallest_with(children[i], names) is Some ==> smallest_with_all(children, names, base)
            == Some(seq![(base + i) as usize] + smallest_with(children[i], names)->0),
    decreases i,
{
    if children.len() > 0 && i > 0 {
        let rest = children.drop_first();
        assert(smallest_with(children[0], names) is None);
        assert forall|j: int| 0 <= j < i - 1 implies (#[trigger] smallest_with(rest[j], names)) is None by {
            assert(rest[j] == children[j + 1]);
        }
        lemma_smallest_with_all(rest, names, base + 1, i - 1);
        if i < children.len() {
            assert(rest[i - 1] == children[i]);
        }
    }
}


/// The node reached from `node` by following `path` through split children.
pub open spec fn node_at(node: DockNode, path: Seq<usize>) -> Option<DockNode>
    decreases path.len(),
{
    if path.len() == 0 {
        Some(node)
    } else {
        match node {
            DockNode::Split { children, .. } => if path[0] < children.len() {
                node_at(children[path[0] as int], path.drop_first())
            } else {
                None
            },
            _ => None,
        }
    }
}

/// `node` with the node at `path` replaced by `new`; unchanged when `path` leads nowhere.
pub open spec fn replaced_at(node: DockNode, path: Seq<usize>, new: DockNode) -> DockNode
    decreases path.len(),
{
    if path.len() == 0 {
        new
    } else {
        match node {
            DockNode::Split { horizontal, children, sizes } => if path[0] < children.len() {
                DockNode::Split {
                    horizontal,
                    children: children.update(
                        path[0] as int,
                        replaced_at(children[path[0] as int], path.drop_first(), new),
                    ),
                    sizes,
                }
            } else {
                node
            },
            _ => node,
        }
    }
}

pub proof fn lemma_panels_of_all_push(children: Seq<DockNode>, c: DockNode)
    ensures
        panels_of_all(children.push(c)) == panels_of_all(children) + panels_of(c),
{
    assert(children.push(c).drop_last() == children);
}

pub proof fn lemma_panels_of_all_take(children: Seq<DockNode>, i: int)
    requires
        0 <= i < children.len(),
    ensures
        panels_of_all(children.take(i + 1)) == panels_of_all(children.take(i)) + panels_of(children[i]),
{
    assert(children.take(i + 1).drop_last() == children.take(i));
}

impl DockItem {
    /// Flatten this node into its panel occurrences in traversal order.
    pub fn into_panels(self) -> (r: Vec<DockPanel>)
        ensures
            r@ == panels_of(self@),
        decreases self,
    {
        match self {
            DockItem::Empty => Vec::new(),
            DockItem::Panel(panel) => {
                let mut r = Vec::new();
                r.push(panel);
                r
            },
            DockItem::Tabs { items, .. } => items,
            DockItem::Tiles { items, .. } => items,
            DockItem::Split { horizontal, items, sizes } => {
                let ghost orig = items@;
                let ghost vorig = view_items(orig);
                proof { lemma_view_items(orig); }
                let mut items = items;
                let mut r: Vec<DockPanel> = Vec::new();
                let mut i: usize = 0;
                #[verifier::loop_isolation(false)]
                while i < items.len()
                    invariant
                        i <= items.len(),
                        items@.len() == orig.len(),
                        forall|j: int| i <= j < orig.len() ==> items@[j] == orig[j],
                        r@ == panels_of_all(vorig.take(i as int)),
                    decreases items.len() - i,
                {
                    let mut child = DockItem::Empty;
                    std::mem::swap(&mut child, &mut items[i]);
                    assert(child == orig[i as int]);
                    let mut sub = child.into_panels();
                    proof { lemma_panels_of_all_take(vorig, i as int); }
                    r.append(&mut sub);
                    i = i + 1;
                }
                assert(vorig.take(orig.len() as int) == vorig);
                r
            },
        }
    }


    /// Remove every occurrence named `name`, returning the collapsed node, the removed
    /// occurrences in traversal order, and the panel a take reports.
    fn remove_named_core<F: Fn(usize) -> TileMeta + Copy>(self, name: &str, missing: F) -> (r: (DockItem, Vec<DockPanel>, Option<DockPanel>))
        requires
            fallback_callable(missing),
        ensures
            forall|g: spec_fn(usize) -> TileMeta| fallback_agrees(missing, g) ==> r.0@ == #[trigger] without_named(self@, name@, g),
            r.1@ == with_name(panels_of(self@), name@),
            r.2 == taken_from(self@, name@),
        decreases self,
    {
        let ghost sv = self@;
        match self {
            DockItem::Empty => {
                assert forall|g: spec_fn(usize) -> TileMeta| fallback_agrees(missing, g) implies DockNode::Empty == #[trigger] without_named(sv, name@, g) by {}
                (DockItem::Empty, Vec::new(), None)
            },
            DockItem::Panel(panel) => {
                proof { reveal_with_fuel(Seq::filter, 2); }
                if panel.is_named(name) {
                    let mut removed = Vec::new();
                    removed.push(panel.share());
                    assert(seq![panel].drop_last() =~= Seq::<DockPanel>::empty());
                    assert forall|g: spec_fn(usize) -> TileMeta| fallback_agrees(missing, g) implies DockNode::Empty == #[trigger] without_named(sv, name@, g) by {}
                    (DockItem::Empty, removed, Some(panel))
                } else {
                    assert(seq![panel].drop_last() =~= Seq::<DockPanel>::empty());
                    assert forall|g: spec_fn(usize) -> TileMeta| fallback_agrees(missing, g) implies DockNode::Panel(panel) == #[trigger] without_named(sv, name@, g) by {}
                    (DockItem::Panel(panel), Vec::new(), None)
                }
            },
            DockItem::Tabs { items, active_ix } => {
                let (mut kept, removed, taken) = filter_named_strip(&items, name);
                let len = kept.len();
                let item = if len == 0 {
                    DockItem::Empty
                } else if len == 1 {
                    DockItem::Panel(kept.remove(0))
                } else {
                    let last = len - 1;
                    DockItem::Tabs { items: kept, active_ix: if active_ix < last { active_ix } else { last } }
                };
                assert forall|g: spec_fn(usize) -> TileMeta| fallback_agrees(missing, g) implies item@ == #[trigger] without_named(sv, name@, g) by {}
                (item, removed, taken)
            },
            DockItem::Tiles { items, metas } => {
                let (mut kept, kept_metas, removed, taken) = filter_named_tiles(&items, &metas, name, &missing);
                let item = if kept.len() == 0 {
                    DockItem::Empty
                } else if kept.len() == 1 {
                    DockItem::Panel(kept.remove(0))
                } else {
                    DockItem::Tiles { items: kept, metas: kept_metas }
                };
                assert forall|g: spec_fn(usize) -> TileMeta| fallback_agrees(missing, g) implies item@ == #[trigger] without_named(sv, name@, g) by {}
                (item, removed, taken)
            },
            DockItem::Split { horizontal, items, sizes } => {
                let ghost orig = items@;
                let ghost vorig = view_items(orig);
                proof { lemma_view_items(orig); }
                let mut items = items;
                let mut kept: Vec<DockItem> = Vec::new();
                let mut kept_sizes: Vec<Option<u32>> = Vec::new();
                let mut removed: Vec<DockPanel> = Vec::new();
                let mut taken: Option<DockPanel> = None;
                let mut i: usize = 0;
                #[verifier::loop_isolation(false)]
                while i < items.len()
                    invariant
                        i <= items.len(),
                        items@.len() == orig.len(),
                        forall|j: int| i <= j < orig.len() ==> items@[j] == orig[j],
                        forall|g: spec_fn(usize) -> TileMeta| fallback_agrees(missing, g) ==> (view_items(kept@), kept_sizes@) == #[trigger] kept_children(vorig.take(i as int), sizes@, name@, g),
                        removed@ == with_name(panels_of_all(vorig.take(i as int)), name@),
                        taken == taken_from_all(vorig.take(i as int), name@),
                    decreases items.len() - i,
                {
                    let mut child = DockItem::Empty;
                    std::mem::swap(&mut child, &mut items[i]);
                    assert(child == orig[i as int]);
                    let (sub, mut sub_removed, sub_taken) = child.remove_named_core(name, missing);
                    proof {
                        lemma_take_step(vorig, i as int);
                        lemma_panels_of_all_take(vorig, i as int);
                        Seq::filter_distributes_over_add(
                            panels_of_all(vorig.take(i as int)),
                            panels_of(vorig[i as int]),
                            |p: DockPanel| p.name@ == name@,
                        );
                    }
                    if taken.is_none() {
                        taken = sub_taken;
                    }
                    removed.append(&mut sub_removed);
                    let ghost kept0 = kept@;
                    let ghost sizes0 = kept_sizes@;
                    if !sub.is_empty() {
                        let size = if i < sizes.len() { sizes[i] } else { None };
                        proof {
                            assert(kept@.push(sub).drop_last() == kept@);
                        }
                        kept.push(sub);
                        kept_sizes.push(size);
                    }
                    assert forall|g: spec_fn(usize) -> TileMeta| fallback_agrees(missing, g) implies (view_items(kept@), kept_sizes@) == #[trigger] kept_children(vorig.take(i + 1), sizes@, name@, g) by {
                        assert((view_items(kept0), sizes0) == kept_children(vorig.take(i as int), sizes@, name@, g));
                        assert(sub@ == without_named(vorig[i as int], name@, g));
                    }
                    i = i + 1;
                }
                assert(vorig.take(orig.len() as int) == vorig);
                proof { lemma_view_items(kept@); }
                let ghost kept_v = kept@;
                let item = if kept.len() == 0 {
                    DockItem::Empty
                } else if kept.len() == 1 {
                    kept.remove(0)
                } else {
                    DockItem::Split { horizontal, items: kept, sizes: kept_sizes }
                };
                assert forall|g: spec_fn(usize) -> TileMeta| fallback_agrees(missing, g) implies item@ == #[trigger] without_named(sv, name@, g) by {
                    assert(sv == DockNode::Split { horizontal, children: vorig, sizes: sizes@ });
                    let kc = kept_children(vorig, sizes@, name@, g);
                    assert(kc.0 == view_items(kept_v));
                    assert(kc.0.len() == kept_v.len());
                    if kept_v.len() == 1 {
                        assert(kc.0[0] == view_item(kept_v[0]));
                    }
                }
                (item, removed, taken)
            },
        }
    }

    /// Remove every occurrence of a stable panel name and return one of them.
    ///
    /// The returned panel is the last occurrence inside the first node, in traversal order,
    /// that holds the name. Emptied tab groups, tiles and split slots collapse.
    pub fn take_panel_named<F: Fn(usize) -> TileMeta + Copy>(self, name: &str, missing: F) -> (r: (DockItem, Option<DockPanel>))
        requires
            fallback_callable(missing),
        ensures
            forall|g: spec_fn(usize) -> TileMeta| fallback_agrees(missing, g) ==> r.0@ == #[trigger] without_named(self@, name@, g),
            r.1 == taken_from(self@, name@),
    {
        let (item, _removed, taken) = self.remove_named_core(name, missing);
        (item, taken)
    }

    /// Remove every occurrence of a stable panel name and return all of them in tree order.
    pub fn extract_panels_named<F: Fn(usize) -> TileMeta + Copy>(self, name: &str, missing: F) -> (r: (DockItem, Vec<DockPanel>))
        requires
            fallback_callable(missing),
        ensures
            forall|g: spec_fn(usize) -> TileMeta| fallback_agrees(missing, g) ==> r.0@ == #[trigger] without_named(self@, name@, g),
            r.1@ == with_name(panels_of(self@), name@),
    {
        let (item, removed, _taken) = self.remove_named_core(name, missing);
        (item, removed)
    }


    /// Add one panel: as the panel itself, as a new active tab, or as a fresh tab group that
    /// replaces a split or tile group.
    pub fn with_panel_added(self, panel: DockPanel) -> (r: DockItem)
        ensures
            r@ == with_added(self@, panel),
    {
        match self {
            DockItem::Empty => DockItem::Panel(panel),
            DockItem::Panel(existing) => {
                let mut items = Vec::new();
                items.push(existing);
                items.push(panel);
                assert(items@ =~= seq![existing, panel]);
                DockItem::Tabs { items, active_ix: 1 }
            },
            DockItem::Tabs { mut items, active_ix: _ } => {
                items.push(panel);
                let active_ix = items.len() - 1;
                DockItem::Tabs { active_ix, items }
            },
            DockItem::Split { .. } | DockItem::Tiles { .. } => {
                let mut items = Vec::new();
                items.push(panel);
                assert(items@ =~= seq![panel]);
                DockItem::Tabs { items, active_ix: 0 }
            },
        }
    }

    /// Count raw panel occurrences, duplicates included.
    pub fn panel_occurrence_count(&self) -> (r: usize)
        requires
            panels_of(self@).len() <= usize::MAX,
        ensures
            r == panels_of(self@).len(),
        decreases self,
    {
        match self {
            DockItem::Empty => 0,
            DockItem::Panel(_) => 1,
            DockItem::Tabs { items, .. } => items.len(),
            DockItem::Tiles { items, .. } => items.len(),
            DockItem::Split { items, .. } => {
                let ghost v = view_items(items@);
                proof { lemma_view_items(items@); }
                let mut total: usize = 0;
                let mut i: usize = 0;
                #[verifier::loop_isolation(false)]
                while i < items.len()
                    invariant
                        i <= items.len(),
                        total == panels_of_all(v.take(i as int)).len(),
                    decreases items.len() - i,
                {
                    proof {
                        lemma_panels_of_all_take(v, i as int);
                        lemma_panels_of_all_prefix_len(v, i as int + 1);
                    }
                    let c = items[i].panel_occurrence_count();
                    total = total + c;
                    i = i + 1;
                }
                assert(v.take(items.len() as int) == v);
                total
            },
        }
    }

    /// Find the first panel, in traversal order, with the given stable name.
    pub fn find_panel_named(&self, name: &str) -> (r: Option<DockPanel>)
        ensures
            r == first_named(panels_of(self@), name@),
        decreases self,
    {
        match self {
            DockItem::Empty => None,
            DockItem::Panel(panel) => {
                proof { reveal_with_fuel(first_named, 2); }
                if panel.is_named(name) {
                    Some(panel.share())
                } else {
                    None
                }
            },
            DockItem::Tabs { items, .. } => find_named_in(items, name),
            DockItem::Tiles { items, .. } => find_named_in(items, name),
            DockItem::Split { items, .. } => {
                let ghost v = view_items(items@);
                proof { lemma_view_items(items@); }
                let mut i: usize = 0;
                #[verifier::loop_isolation(false)]
                while i < items.len()
                    invariant
                        i <= items.len(),
                        first_named(panels_of_all(v.take(i as int)), name@) is None,
                    decreases items.len() - i,
                {
                    proof {
                        lemma_panels_of_all_take(v, i as int);
                        lemma_first_named_concat(panels_of_all(v.take(i as int)), panels_of(v[i as int]), name@);
                    }
                    let found = items[i].find_panel_named(name);
                    if found.is_some() {
                        proof { lemma_first_named_prefix(v, i as int + 1, name@); }
                        return found;
                    }
                    i = i + 1;
                }
                assert(v.take(items.len() as int) == v);
                None
            },
        }
    }

    /// Append every panel identity of this node that `panels` does not hold yet, in order.
    pub fn append_unique_panels(&self, panels: &mut Vec<DockPanel>)
        ensures
            final(panels)@ == add_unique(old(panels)@, panels_of(self@)),
        decreases self,
    {
        match self {
            DockItem::Empty => {},
            DockItem::Panel(panel) => {
                proof { reveal_with_fuel(add_unique, 2); }
                assert(seq![*panel].drop_last() =~= Seq::<DockPanel>::empty());
                push_unique(panels, panel);
            },
            DockItem::Tabs { items, .. } => push_all_unique(panels, items),
            DockItem::Tiles { items, .. } => push_all_unique(panels, items),
            DockItem::Split { items, .. } => {
                let ghost v = view_items(items@);
                let ghost start = panels@;
                proof { lemma_view_items(items@); }
                let mut i: usize = 0;
                #[verifier::loop_isolation(false)]
                while i < items.len()
                    invariant
                        i <= items.len(),
                        panels@ == add_unique(start, panels_of_all(v.take(i as int))),
                    decreases items.len() - i,
                {
                    proof {
                        lemma_panels_of_all_take(v, i as int);
                        lemma_add_unique_concat(start, panels_of_all(v.take(i as int)), panels_of(v[i as int]));
                    }
                    items[i].append_unique_panels(panels);
                    i = i + 1;
                }
                assert(v.take(items.len() as int) == v);
            },
        }
    }


    /// Push a panel into the first tab group, in traversal order, and make it active there.
    ///
    /// Returns whether a tab group was found; without one the node is left as it was.
    pub fn try_push_into_first_tabs(&mut self, panel: &DockPanel) -> (r: bool)
        ensures
            (final(self)@, r) == pushed_first_tabs(old(self)@, *panel),
        decreases old(self),
    {
        let mut cur = DockItem::Empty;
        std::mem::swap(&mut cur, self);
        let (next, ok) = cur.pushed_into_first_tabs(panel);
        *self = next;
        ok
    }

    fn pushed_into_first_tabs(self, panel: &DockPanel) -> (r: (DockItem, bool))
        ensures
            (r.0@, r.1) == pushed_first_tabs(self@, *panel),
        decreases self,
    {
        match self {
            DockItem::Tabs { mut items, active_ix: _ } => {
                items.push(panel.share());
                let active_ix = items.len() - 1;
                (DockItem::Tabs { items, active_ix }, true)
            },
            DockItem::Split { horizontal, items, sizes } => {
                let ghost orig = items@;
                let ghost vorig = view_items(orig);
                proof { lemma_view_items(orig); }
                let mut items = items;
                let mut i: usize = 0;
                #[verifier::loop_isolation(false)]
                while i < items.len()
                    invariant
                        i <= items.len(),
                        items@.len() == orig.len(),
                        forall|j: int| i <= j < orig.len() ==> items@[j] == orig[j],
                        view_items(items@) == vorig,
                        forall|j: int| 0 <= j < i ==> !(#[trigger] pushed_first_tabs(vorig[j], *panel)).1,
                    decreases items.len() - i,
                {
                    let ghost prev = items@;
                    proof { lemma_view_items(prev); }
                    let mut child = DockItem::Empty;
                    std::mem::swap(&mut child, &mut items[i]);
                    assert(child == orig[i as int]);
                    let (next, ok) = child.pushed_into_first_tabs(panel);
                    if ok {
                        let mut next = next;
                        std::mem::swap(&mut next, &mut items[i]);
                        proof {
                            lemma_pushed_first_tabs_all(vorig, *panel, i as int);
                            lemma_view_items(items@);
                            assert(view_items(items@) =~= vorig.update(i as int, pushed_first_tabs(vorig[i as int], *panel).0));
                        }
                        return (DockItem::Split { horizontal, items, sizes }, true);
                    }
                    proof { lemma_pushed_first_tabs_unchanged(vorig[i as int], *panel); }
                    let mut back = next;
                    std::mem::swap(&mut back, &mut items[i]);
                    proof {
                        lemma_view_items(items@);
                        assert(view_items(items@) =~= vorig);
                    }
                    i = i + 1;
                }
                proof { lemma_pushed_first_tabs_all(vorig, *panel, i as int); }
                (DockItem::Split { horizontal, items, sizes }, false)
            },
            other => {
                proof { lemma_pushed_first_tabs_unchanged(other@, *panel); }
                (other, false)
            },
        }
    }

    /// Split-only path to the node that holds the first occurrence of `name`.
    pub fn find_panel_path(&self, name: &str) -> (r: Option<Vec<usize>>)
        ensures
            match r {
                Some(path) => panel_path(self@, name@) == Some(path@),
                None => panel_path(self@, name@) is None,
            },
        decreases self,
    {
        match self {
            DockItem::Empty => None,
            DockItem::Panel(panel) => {
                if panel.is_named(name) {
                    Some(Vec::new())
                } else {
                    None
                }
            },
            DockItem::Tabs { items, .. } => {
                if find_named_in(items, name).is_some() { Some(Vec::new()) } else { None }
            },
            DockItem::Tiles { items, .. } => {
                if find_named_in(items, name).is_some() { Some(Vec::new()) } else { None }
            },
            DockItem::Split { items, .. } => {
                let ghost v = view_items(items@);
                proof { lemma_view_items(items@); }
                let mut i: usize = 0;
                #[verifier::loop_isolation(false)]
                while i < items.len()
                    invariant
                        i <= items.len(),
                        forall|j: int| 0 <= j < i ==> (#[trigger] panel_path(v[j], name@)) is None,
                    decreases items.len() - i,
                {
                    let found = items[i].find_panel_path(name);
                    match found {
                        Some(sub) => {
                            let mut path = Vec::new();
                            path.push(i);
                            let mut sub = sub;
                            path.append(&mut sub);
                            proof { lemma_panel_path_all(v, name@, 0, i as int); }
                            assert(path@ =~= seq![i] + panel_path(v[i as int], name@)->0);
                            return Some(path);
                        },
                        None => {},
                    }
                    i = i + 1;
                }
                proof { lemma_panel_path_all(v, name@, 0, i as int); }
                None
            },
        }
    }

    /// Any panel name in this node other than `exclude`: the first one in traversal order.
    pub fn first_panel_name_excluding(&self, exclude: &str) -> (r: Option<String>)
        ensures
            match r {
                Some(n) => first_name_excluding(self@, exclude@) == Some(n@),
                None => first_name_excluding(self@, exclude@) is None,
            },
        decreases self,
    {
        match self {
            DockItem::Empty => None,
            DockItem::Panel(panel) => {
                proof { reveal_with_fuel(first_not_named, 2); }
                if panel.is_named(exclude) { None } else { Some(panel.name.clone()) }
            },
            DockItem::Tabs { items, .. } => match find_not_named_in(items, exclude) {
                Some(p) => Some(p.name),
                None => None,
            },
            DockItem::Tiles { items, .. } => match find_not_named_in(items, exclude) {
                Some(p) => Some(p.name),
                None => None,
            },
            DockItem::Split { items, .. } => {
                let ghost v = view_items(items@);
                proof { lemma_view_items(items@); }
                let mut i: usize = 0;
                #[verifier::loop_isolation(false)]
                while i < items.len()
                    invariant
                        i <= items.len(),
                        first_not_named(panels_of_all(v.take(i as int)), exclude@) is None,
                    decreases items.len() - i,
                {
                    proof {
                        lemma_panels_of_all_take(v, i as int);
                        lemma_first_not_named_concat(panels_of_all(v.take(i as int)), panels_of(v[i as int]), exclude@);
                    }
                    let found = items[i].first_panel_name_excluding(exclude);
                    if found.is_some() {
                        proof { lemma_first_not_named_prefix(v, i as int + 1, exclude@); }
                        return found;
                    }
                    i = i + 1;
                }
                assert(v.take(items.len() as int) == v);
                None
            },
        }
    }


    /// Restore `panel` into its home tab strip: the first one, in traversal order, that holds
    /// a panel named in `sibling_names`, at `ix` clamped to the strip, making it active.
    ///
    /// Surrounding splits are kept. Returns false, changing nothing, when no tab strip holds a
    /// sibling (a lone sibling panel outside a tab strip is no home), so that the caller may
    /// fall back to adding the panel.
    pub fn insert_into_named_tabs(&mut self, panel: &DockPanel, ix: usize, sibling_names: &Vec<String>) -> (r: bool)
        ensures
            (final(self)@, r) == inserted_home(old(self)@, *panel, ix as nat, sibling_names@),
    {
        let mut cur = DockItem::Empty;
        std::mem::swap(&mut cur, self);
        let (next, ok) = cur.inserted_into_named_tabs(panel, ix, sibling_names);
        *self = next;
        ok
    }

    fn inserted_into_named_tabs(self, panel: &DockPanel, ix: usize, sibling_names: &Vec<String>) -> (r: (DockItem, bool))
        ensures
            (r.0@, r.1) == inserted_home(self@, *panel, ix as nat, sibling_names@),
        decreases self,
    {
        match self {
            DockItem::Tabs { mut items, active_ix } => {
                if any_named_in(&items, sibling_names) {
                    let at = if ix < items.len() { ix } else { items.len() };
                    items.insert(at, panel.share());
                    (DockItem::Tabs { items, active_ix: at }, true)
                } else {
                    (DockItem::Tabs { items, active_ix }, false)
                }
            },
            DockItem::Split { horizontal, items, sizes } => {
                let ghost orig = items@;
                let ghost vorig = view_items(orig);
                proof { lemma_view_items(orig); }
                let mut items = items;
                let mut i: usize = 0;
                #[verifier::loop_isolation(false)]
                while i < items.len()
                    invariant
                        i <= items.len(),
                        items@.len() == orig.len(),
                        forall|j: int| i <= j < orig.len() ==> items@[j] == orig[j],
                        view_items(items@) == vorig,
                        forall|j: int| 0 <= j < i ==> !(#[trigger] inserted_home(vorig[j], *panel, ix as nat, sibling_names@)).1,
                    decreases items.len() - i,
                {
                    let ghost prev = items@;
                    proof { lemma_view_items(prev); }
                    let mut child = DockItem::Empty;
                    std::mem::swap(&mut child, &mut items[i]);
                    assert(child == orig[i as int]);
                    let (next, ok) = child.inserted_into_named_tabs(panel, ix, sibling_names);
                    let mut next = next;
                    std::mem::swap(&mut next, &mut items[i]);
                    proof { lemma_view_items(items@); }
                    if ok {
                        proof {
                            lemma_inserted_home_all(vorig, *panel, ix as nat, sibling_names@, i as int);
                            assert(view_items(items@) =~= vorig.update(i as int, inserted_home(vorig[i as int], *panel, ix as nat, sibling_names@).0));
                        }
                        return (DockItem::Split { horizontal, items, sizes }, true);
                    }
                    proof {
                        lemma_inserted_home_unchanged(vorig[i as int], *panel, ix as nat, sibling_names@);
                        assert(view_items(items@) =~= vorig);
                    }
                    i = i + 1;
                }
                proof { lemma_inserted_home_all(vorig, *panel, ix as nat, sibling_names@, i as int); }
                (DockItem::Split { horizontal, items, sizes }, false)
            },
            other => (other, false),
        }
    }

    /// Whether this node holds a panel carrying any of `names`.
    pub fn contains_any_panel(&self, names: &Vec<String>) -> (r: bool)
        ensures
            r == any_named(panels_of(self@), names@),
    {
        let mut k: usize = 0;
        while k < names.len()
            invariant
                k <= names.len(),
                forall|j: int| 0 <= j < k ==> first_named(panels_of(self@), #[trigger] names@[j]@) is None,
            decreases names.len() - k,
        {
            if self.find_panel_named(names[k].as_str()).is_some() {
                proof { lemma_first_named_some(panels_of(self@), names@[k as int]@); }
                return true;
            }
            k = k + 1;
        }
        proof {
            assert forall|i: int| 0 <= i < panels_of(self@).len() implies !in_names(#[trigger] panels_of(self@)[i].name@, names@) by {
                if in_names(panels_of(self@)[i].name@, names@) {
                    let j = choose|j: int| 0 <= j < names@.len() && #[trigger] names@[j]@ == panels_of(self@)[i].name@;
                    lemma_first_named_none(panels_of(self@), names@[j]@, i);
                }
            }
        }
        false
    }


    /// Reorder pinned panels to the front of every tab group, in pinned order, and at
    /// horizontal splits move the slots holding them before all others, sizes travelling
    /// with their slots.
    ///
    /// A tab group keeps the same panel identity active. Returns whether any tab order or
    /// split order changed.
    pub fn enforce_pinned_leading(&mut self, pinned: &Vec<String>) -> (r: bool)
        requires
            pinned.len() < usize::MAX,
        ensures
            (final(self)@, r) == enforced(old(self)@, pinned@),
    {
        let mut cur = DockItem::Empty;
        std::mem::swap(&mut cur, self);
        let (next, changed) = cur.with_pinned_leading(pinned);
        *self = next;
        changed
    }

    fn with_pinned_leading(self, pinned: &Vec<String>) -> (r: (DockItem, bool))
        requires
            pinned.len() < usize::MAX,
        ensures
            (r.0@, r.1) == enforced(self@, pinned@),
        decreases self,
    {
        match self {
            DockItem::Tabs { items, active_ix } => {
                let ordered = order_pinned(&items, pinned);
                let active = if active_ix < items.len() {
                    id_index(&ordered, items[active_ix].id)
                } else {
                    active_ix
                };
                let changed = !same_ids(&ordered, &items);
                (DockItem::Tabs { items: ordered, active_ix: active }, changed)
            },
            DockItem::Split { horizontal, items, sizes } => {
                let ghost orig = items@;
                let ghost vorig = view_items(orig);
                proof { lemma_view_items(orig); }
                let mut items = items;
                let mut cs: Vec<DockItem> = Vec::new();
                let mut changed = false;
                let mut i: usize = 0;
                #[verifier::loop_isolation(false)]
                while i < items.len()
                    invariant
                        i <= items.len(),
                        items@.len() == orig.len(),
                        forall|j: int| i <= j < orig.len() ==> items@[j] == orig[j],
                        (view_items(cs@), changed) == enforced_all(vorig.take(i as int), pinned@),
                    decreases items.len() - i,
                {
                    let mut child = DockItem::Empty;
                    std::mem::swap(&mut child, &mut items[i]);
                    assert(child == orig[i as int]);
                    let (next, ch) = child.with_pinned_leading(pinned);
                    proof {
                        lemma_take_step(vorig, i as int);
                        assert(cs@.push(next).drop_last() == cs@);
                    }
                    cs.push(next);
                    changed = changed || ch;
                    i = i + 1;
                }
                assert(vorig.take(orig.len() as int) == vorig);
                if !horizontal {
                    return (DockItem::Split { horizontal, items: cs, sizes }, changed);
                }
                let ghost vcs = view_items(cs@);
                proof { lemma_view_items(cs@); }
                let mut flags: Vec<bool> = Vec::new();
                let mut seen_unpinned = false;
                let mut follows = false;
                let mut k: usize = 0;
                while k < cs.len()
                    invariant
                        k <= cs.len(),
                        vcs == view_items(cs@),
                        vcs.len() == cs@.len(),
                        forall|j: int| 0 <= j < cs@.len() ==> #[trigger] vcs[j] == view_item(cs@[j]),
                        flags@.len() == k,
                        forall|j: int| 0 <= j < k ==> flags@[j] == holds_pinned(#[trigger] vcs[j], pinned@),
                        seen_unpinned == (exists|j: int| 0 <= j < k && !flags@[j]),
                        follows == (exists|a: int, b: int| 0 <= a < b < k && !flags@[a] && flags@[b]),
                    decreases cs.len() - k,
                {
                    let f = cs[k].contains_any_panel(pinned);
                    if f && seen_unpinned {
                        follows = true;
                        proof {
                            let a = choose|a: int| 0 <= a < k && !flags@[a];
                            assert(0 <= a < k && !flags@.push(f)[a] && flags@.push(f)[k as int]);
                        }
                    }
                    if !f {
                        seen_unpinned = true;
                    }
                    proof {
                        if follows {
                            assert(exists|a: int, b: int| 0 <= a < b < k + 1 && !flags@.push(f)[a] && flags@.push(f)[b]) by {
                                if exists|a: int, b: int| 0 <= a < b < k && !flags@[a] && flags@[b] {
                                    let (a, b) = choose|a: int, b: int| 0 <= a < b < k && !flags@[a] && flags@[b];
                                    assert(!flags@.push(f)[a] && flags@.push(f)[b]);
                                }
                            }
                        }
                    }
                    proof {
                        if seen_unpinned {
                            if !f {
                                assert(!flags@.push(f)[k as int]);
                            } else {
                                let j = choose|j: int| 0 <= j < k && !flags@[j];
                                assert(!flags@.push(f)[j]);
                            }
                        }
                        assert forall|j: int| 0 <= j < k + 1 && !flags@.push(f)[j] implies seen_unpinned by {
                            if j < k {
                                assert(flags@.push(f)[j] == flags@[j]);
                            }
                        }
                    }
                    flags.push(f);
                    k = k + 1;
                }
                assert(follows == pinned_follows_unpinned(vcs, pinned@)) by {
                    if pinned_follows_unpinned(vcs, pinned@) {
                        let (a, b) = choose|a: int, b: int| 0 <= a < b < vcs.len() && !holds_pinned(#[trigger] vcs[a], pinned@) && holds_pinned(#[trigger] vcs[b], pinned@);
                        assert(!flags@[a] && flags@[b]);
                    }
                    if follows {
                        let (a, b) = choose|a: int, b: int| 0 <= a < b < flags@.len() && !flags@[a] && flags@[b];
                        assert(!holds_pinned(vcs[a], pinned@) && holds_pinned(vcs[b], pinned@));
                    }
                }
                if follows {
                    let (new_items, new_sizes) = lead_pinned_slots(cs, &sizes, &flags, Ghost(pinned@));
                    (DockItem::Split { horizontal, items: new_items, sizes: new_sizes }, true)
                } else {
                    (DockItem::Split { horizontal, items: cs, sizes }, changed)
                }
            },
            other => {
                proof { lemma_enforced_unchanged(other@, pinned@); }
                (other, false)
            },
        }
    }


    /// Append panels repaired into a layout to this node without discarding what it holds.
    ///
    /// An empty node becomes the lone panel or a tab group, a panel becomes a tab group that
    /// it leads, tabs and tiles grow at the end (new tiles placed by `missing` at their
    /// index), and a split hands them to its first child.
    pub fn append_repaired_panels<F: Fn(usize) -> TileMeta + Copy>(&mut self, panels: Vec<DockPanel>, missing: F)
        requires
            fallback_callable(missing),
        ensures
            forall|g: spec_fn(usize) -> TileMeta| fallback_agrees(missing, g) ==> final(self)@ == #[trigger] repaired(old(self)@, panels@, g),
    {
        let mut cur = DockItem::Empty;
        std::mem::swap(&mut cur, self);
        *self = cur.with_repaired(panels, missing);
    }

    fn with_repaired<F: Fn(usize) -> TileMeta + Copy>(self, panels: Vec<DockPanel>, missing: F) -> (r: DockItem)
        requires
            fallback_callable(missing),
        ensures
            forall|g: spec_fn(usize) -> TileMeta| fallback_agrees(missing, g) ==> r@ == #[trigger] repaired(self@, panels@, g),
        decreases self,
    {
        let ghost sv = self@;
        if panels.len() == 0 {
            return self;
        }
        match self {
            DockItem::Empty => {
                if panels.len() == 1 {
                    let mut panels = panels;
                    DockItem::Panel(panels.remove(0))
                } else {
                    DockItem::Tabs { items: panels, active_ix: 0 }
                }
            },
            DockItem::Panel(existing) => {
                let ghost ps = panels@;
                let mut items = Vec::new();
                items.push(existing);
                let mut panels = panels;
                items.append(&mut panels);
                assert(items@ =~= seq![existing] + ps);
                DockItem::Tabs { items, active_ix: 0 }
            },
            DockItem::Tabs { mut items, active_ix } => {
                let mut panels = panels;
                items.append(&mut panels);
                DockItem::Tabs { items, active_ix }
            },
            DockItem::Tiles { mut items, mut metas } => {
                let ghost items0 = items@;
                let ghost metas0 = metas@;
                let mut k: usize = 0;
                while k < panels.len()
                    invariant
                        k <= panels.len(),
                        fallback_callable(missing),
                        items@ == items0 + panels@.take(k as int),
                        forall|g: spec_fn(usize) -> TileMeta| #![trigger fallback_agrees(missing, g)] fallback_agrees(missing, g) ==> metas@ == metas0 + fallback_run(g, items0.len() as int, k as nat),
                    decreases panels.len() - k,
                {
                    let ix = items.len();
                    assert(ix == items0.len() + k);
                    let m = call_fallback(&missing, ix);
                    let ghost metas_before = metas@;
                    items.push(panels[k].share());
                    metas.push(m);
                    proof {
                        lemma_take_step(panels@, k as int);
                        assert(items@ =~= items0 + panels@.take(k + 1));
                        assert forall|g: spec_fn(usize) -> TileMeta| #![trigger fallback_agrees(missing, g)] fallback_agrees(missing, g) implies metas@ == metas0 + fallback_run(g, items0.len() as int, (k + 1) as nat) by {
                            assert(metas_before == metas0 + fallback_run(g, items0.len() as int, k as nat));
                            assert(metas@ =~= metas0 + fallback_run(g, items0.len() as int, (k + 1) as nat));
                        }
                    }
                    k = k + 1;
                }
                assert(panels@.take(panels.len() as int) == panels@);
                DockItem::Tiles { items, metas }
            },
            DockItem::Split { horizontal, mut items, sizes } => {
                if items.len() == 0 {
                    return DockItem::Split { horizontal, items, sizes };
                }
                let ghost orig = items@;
                proof { lemma_view_items(orig); }
                let mut first = DockItem::Empty;
                std::mem::swap(&mut first, &mut items[0]);
                assert(first == orig[0]);
                let ghost ps = panels@;
                let mut next = first.with_repaired(panels, missing);
                let ghost nv = next@;
                std::mem::swap(&mut next, &mut items[0]);
                proof {
                    lemma_view_items(items@);
                    assert(view_items(items@) =~= view_items(orig).update(0, nv));
                }
                let r = DockItem::Split { horizontal, items, sizes };
                assert forall|g: spec_fn(usize) -> TileMeta| fallback_agrees(missing, g) implies r@ == #[trigger] repaired(sv, ps, g) by {
                    assert(nv == repaired(first@, ps, g));
                    assert(sv == DockNode::Split { horizontal, children: view_items(orig), sizes: sizes@ });
                }
                r
            },
        }
    }

    /// Path to the smallest subtree holding every name of `names` that this node holds.
    ///
    /// Names this node does not hold are ignored; `None` when it holds none of them.
    pub fn smallest_subtree_with_all(&self, names: &Vec<String>) -> (r: Option<Vec<usize>>)
        ensures
            match r {
                Some(path) => present_names(self@, names@).len() > 0
                    && smallest_with(self@, present_names(self@, names@)) == Some(path@),
                None => present_names(self@, names@).len() == 0,
            },
    {
        let ghost all = names@.map_values(|s: String| s@);
        let ghost pred = |n: Seq<char>| holds(self@, n);
        let mut present: Vec<String> = Vec::new();
        let mut i: usize = 0;
        while i < names.len()
            invariant
                i <= names.len(),
                all == names@.map_values(|s: String| s@),
                pred == (|n: Seq<char>| holds(self@, n)),
                present@.map_values(|s: String| s@) == all.take(i as int).filter(pred),
            decreases names.len() - i,
        {
            proof { lemma_filter_take_step(all, pred, i as int); }
            let found = self.find_panel_named(names[i].as_str());
            proof { lemma_holds_first_named(self@, names@[i as int]@); }
            if found.is_some() {
                present.push(names[i].clone());
                assert(present@.map_values(|s: String| s@) =~= all.take(i as int).filter(pred).push(all[i as int]));
            }
            i = i + 1;
        }
        assert(all.take(names.len() as int) == all);
        if present.len() == 0 {
            return None;
        }
        self.smallest_node_with(&present)
    }

    /// Path to the smallest node holding every name of `names`, or `None` when this node
    /// does not hold them all.
    pub fn smallest_node_with(&self, names: &Vec<String>) -> (r: Option<Vec<usize>>)
        ensures
            match r {
                Some(path) => smallest_with(self@, names@.map_values(|s: String| s@)) == Some(path@),
                None => smallest_with(self@, names@.map_values(|s: String| s@)) is None,
            },
        decreases self,
    {
        let ghost ns = names@.map_values(|s: String| s@);
        let mut k: usize = 0;
        while k < names.len()
            invariant
                k <= names.len(),
                ns == names@.map_values(|s: String| s@),
                forall|j: int| 0 <= j < k ==> holds(self@, #[trigger] ns[j]),
            decreases names.len() - k,
        {
            let found = self.find_panel_named(names[k].as_str());
            proof { lemma_holds_first_named(self@, ns[k as int]); }
            if found.is_none() {
                return None;
            }
            k = k + 1;
        }
        match self {
            DockItem::Split { items, .. } => {
                let ghost v = view_items(items@);
                proof { lemma_view_items(items@); }
                let mut i: usize = 0;
                #[verifier::loop_isolation(false)]
                while i < items.len()
                    invariant
                        i <= items.len(),
                        forall|j: int| 0 <= j < i ==> (#[trigger] smallest_with(v[j], ns)) is None,
                    decreases items.len() - i,
                {
                    match items[i].smallest_node_with(names) {
                        Some(sub) => {
                            let mut path = Vec::new();
                            path.push(i);
                            let mut sub = sub;
                            path.append(&mut sub);
                            proof { lemma_smallest_with_all(v, ns, 0, i as int); }
                            assert(path@ =~= seq![i] + smallest_with(v[i as int], ns)->0);
                            return Some(path);
                        },
                        None => {},
                    }
                    i = i + 1;
                }
                proof { lemma_smallest_with_all(v, ns, 0, i as int); }
                Some(Vec::new())
            },
            _ => Some(Vec::new()),
        }
    }


    /// The node at a split-only path.
    pub fn item_at_path(&self, path: &Vec<usize>) -> (r: Option<&DockItem>)
        ensures
            match r {
                Some(item) => node_at(self@, path@) == Some(item@),
                None => node_at(self@, path@) is None,
            },
    {
        assert(path@.skip(0) == path@);
        self.item_at_path_from(path, 0)
    }

    fn item_at_path_from(&self, path: &Vec<usize>, depth: usize) -> (r: Option<&DockItem>)
        requires
            depth <= path.len(),
        ensures
            match r {
                Some(item) => node_at(self@, path@.skip(depth as int)) == Some(item@),
                None => node_at(self@, path@.skip(depth as int)) is None,
            },
        decreases self,
    {
        if depth == path.len() {
            return Some(self);
        }
        assert(path@.skip(depth as int).drop_first() == path@.skip(depth + 1));
        match self {
            DockItem::Split { items, .. } => {
                let ix = path[depth];
                if ix < items.len() {
                    proof { lemma_view_items(items@); }
                    items[ix].item_at_path_from(path, depth + 1)
                } else {
                    proof { lemma_view_items(items@); }
                    None
                }
            },
            _ => None,
        }
    }

    /// Replace the node at a split-only path, returning the node that stood there.
    ///
    /// Returns `Err(new)` with the tree unchanged when the path leads nowhere.
    pub fn replace_at_path(&mut self, path: &Vec<usize>, new: DockItem) -> (r: Result<DockItem, DockItem>)
        ensures
            match r {
                Ok(old_item) => node_at(old(self)@, path@) == Some(old_item@)
                    && final(self)@ == replaced_at(old(self)@, path@, new@),
                Err(back) => node_at(old(self)@, path@) is None && final(self)@ == old(self)@ && back == new,
            },
    {
        assert(path@.skip(0) == path@);
        let mut cur = DockItem::Empty;
        std::mem::swap(&mut cur, self);
        let (next, r) = cur.replaced_at_from(path, 0, new);
        *self = next;
        r
    }

    fn replaced_at_from(self, path: &Vec<usize>, depth: usize, new: DockItem) -> (r: (DockItem, Result<DockItem, DockItem>))
        requires
            depth <= path.len(),
        ensures
            match r.1 {
                Ok(old_item) => node_at(self@, path@.skip(depth as int)) == Some(old_item@)
                    && r.0@ == replaced_at(self@, path@.skip(depth as int), new@),
                Err(back) => node_at(self@, path@.skip(depth as int)) is None && r.0@ == self@ && back == new,
            },
        decreases self,
    {
        if depth == path.len() {
            return (new, Ok(self));
        }
        assert(path@.skip(depth as int).drop_first() == path@.skip(depth + 1));
        match self {
            DockItem::Split { horizontal, items, sizes } => {
                let ix = path[depth];
                let ghost orig = items@;
                proof { lemma_view_items(orig); }
                if ix < items.len() {
                    let mut items = items;
                    let mut child = DockItem::Empty;
                    std::mem::swap(&mut child, &mut items[ix]);
                    assert(child == orig[ix as int]);
                    let (next, r) = child.replaced_at_from(path, depth + 1, new);
                    let mut next = next;
                    std::mem::swap(&mut next, &mut items[ix]);
                    proof {
                        lemma_view_items(items@);
                        match r {
                            Ok(_) => {
                                assert(view_items(items@) =~= view_items(orig).update(ix as int,
                                    replaced_at(view_item(orig[ix as int]), path@.skip(depth + 1), new@)));
                            },
                            Err(_) => {
                                assert(view_items(items@) =~= view_items(orig));
                            },
                        }
                    }
                    (DockItem::Split { horizontal, items, sizes }, r)
                } else {
                    (DockItem::Split { horizontal, items, sizes }, Err(new))
                }
            },
            other => (other, Err(new)),
        }
    }

    /// Whether this node holds nothing.
    pub fn is_empty(&self) -> (r: bool)
        ensures
            r == (self@ is Empty),
    {
        match self {
            DockItem::Empty => true,
            _ => false,
        }
    }
}

impl DockItem {
    /// Wrap one panel as a node. The host tells the panel it was added.
    pub fn tab(panel: DockPanel) -> (r: DockItem)
        ensures
            r@ == DockNode::Panel(panel),
    {
        DockItem::Panel(panel)
    }

    /// Create a tab group with its first panel active. The host tells the panels they were
    /// added.
    pub fn tabs(items: Vec<DockPanel>) -> (r: DockItem)
        ensures
            r@ == (DockNode::Tabs { items: items@, active_ix: 0 }),
    {
        DockItem::Tabs { items, active_ix: 0 }
    }

    /// Create a split node without explicit child sizes.
    pub fn split(horizontal: bool, items: Vec<DockItem>) -> (r: DockItem)
        ensures
            r@ == (DockNode::Split { horizontal, children: view_items(items@), sizes: Seq::empty() }),
    {
        let sizes: Vec<Option<u32>> = Vec::new();
        DockItem::Split { horizontal, items, sizes }
    }

    /// Create a freeform tile group with metadata aligned to its panels.
    pub fn tiles(items: Vec<DockPanel>, metas: Vec<TileMeta>) -> (r: DockItem)
        ensures
            r@ == (DockNode::Tiles { items: items@, metas: metas@ }),
    {
        DockItem::Tiles { items, metas }
    }

    /// Create a split node along the given axis with optional child sizes.
    pub fn split_with_sizes(horizontal: bool, items: Vec<DockItem>, sizes: Vec<Option<u32>>) -> (r: DockItem)
        ensures
            r@ == (DockNode::Split { horizontal, children: view_items(items@), sizes: sizes@ }),
    {
        DockItem::Split { horizontal, items, sizes }
    }

    /// Create a horizontal split without explicit child sizes.
    pub fn h_split(items: Vec<DockItem>) -> (r: DockItem)
        ensures
            r@ == (DockNode::Split { horizontal: true, children: view_items(items@), sizes: Seq::empty() }),
    {
        DockItem::split(true, items)
    }

    /// Create a vertical split without explicit child sizes.
    pub fn v_split(items: Vec<DockItem>) -> (r: DockItem)
        ensures
            r@ == (DockNode::Split { horizontal: false, children: view_items(items@), sizes: Seq::empty() }),
    {
        DockItem::split(false, items)
    }
}

} // verus!
