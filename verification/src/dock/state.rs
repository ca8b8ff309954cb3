//! Persisted dock state: the serializable form of a dock tree and of a whole dock area.
//!
//! Sizes are IEEE-754 single-precision values held as their bit patterns. A persisted split
//! size is a fixed size exactly when it is greater than zero; anything else (zero, a negative
//! value or NaN) restores as a flexible slot.

use vstd::prelude::*;

use super::area::{DockArea, DockPlacement, DockSide};
use super::item::{
    lemma_panels_of_all_push, lemma_view_items, panels_of, panels_of_all, size_at, view_items, DockItem, DockNode, DockPanel,
    TileMeta,
};

use super::lifecycle::{added_each, push_added_each};
use super::area::layout_of;
use super::shared::occurrences_of;

verus! {

/// The panel-specific payload of a persisted leaf, carried through unread.
#[verifier::external_type_specification]
#[verifier::external_body]
pub struct ExJsonValue(serde_json::Value);

/// The JSON `null` payload (`serde_json::Value::Null`).
///
/// Trusted: nothing is stated of the value, which Verus cannot look into.
#[verifier::external_body]
fn json_null() -> serde_json::Value {
    serde_json::Value::Null
}

/// Serialized payload describing the structural kind of a [`PanelState`].
#[derive(Debug)]
pub enum PanelInfo {
    Stack { sizes: Vec<u32>, axis: usize },
    Tabs { active_index: usize },
    Panel(serde_json::Value),
    Tiles { metas: Vec<TileMeta> },
}

/// The mathematical value of a [`PanelInfo`].
pub enum InfoValue {
    Stack { sizes: Seq<u32>, axis: nat },
    Tabs { active_index: nat },
    Panel(serde_json::Value),
    Tiles { metas: Seq<TileMeta> },
}

impl View for PanelInfo {
    type V = InfoValue;

    open spec fn view(&self) -> InfoValue {
        match self {
            PanelInfo::Stack { sizes, axis } => InfoValue::Stack { sizes: sizes@, axis: *axis as nat },
            PanelInfo::Tabs { active_index } => InfoValue::Tabs { active_index: *active_index as nat },
            PanelInfo::Panel(v) => InfoValue::Panel(*v),
            PanelInfo::Tiles { metas } => InfoValue::Tiles { metas: metas@ },
        }
    }
}

/// Recursive serialized state for one panel, tab group, tile group, or split.
#[derive(Debug)]
pub struct PanelState {
    pub panel_name: String,
    pub children: Vec<PanelState>,
    pub info: PanelInfo,
}

/// The mathematical value of a [`PanelState`].
pub struct StateValue {
    pub panel_name: Seq<char>,
    pub children: Seq<StateValue>,
    pub info: InfoValue,
}

/// The values of a sequence of panel states, in order.
pub open spec fn view_states(states: Seq<PanelState>) -> Seq<StateValue>
    decreases states,
{
    if states.len() == 0 {
        Seq::empty()
    } else {
        view_states(states.drop_last()).push(view_state(states.last()))
    }
}

/// The value of one panel state.
pub open spec fn view_state(s: PanelState) -> StateValue
    decreases s,
{
    StateValue { panel_name: s.panel_name@, children: view_states(s.children@), info: s.info@ }
}

impl View for PanelState {
    type V = StateValue;

    open spec fn view(&self) -> StateValue {
        view_state(*self)
    }
}

pub proof fn lemma_view_states(states: Seq<PanelState>)
    ensures
        view_states(states).len() == states.len(),
        forall|i: int| 0 <= i < states.len() ==> #[trigger] view_states(states)[i] == view_state(states[i]),
    decreases states.len(),
{
    if states.len() > 0 {
        lemma_view_states(states.drop_last());
    }
}

impl Default for PanelInfo {
    /// A leaf payload holding JSON `null`.
    fn default() -> (r: PanelInfo)
        ensures
            r@ is Panel,
    {
        PanelInfo::Panel(json_null())
    }
}

impl PanelInfo {
    /// Create a leaf-panel payload from panel-specific serialized data.
    pub fn panel(info: serde_json::Value) -> (r: PanelInfo)
        ensures
            r@ == InfoValue::Panel(info),
    {
        PanelInfo::Panel(info)
    }

    /// Create a tab-group payload with the supplied active index.
    pub fn tabs(active_index: usize) -> (r: PanelInfo)
        ensures
            r@ == (InfoValue::Tabs { active_index: active_index as nat }),
    {
        PanelInfo::Tabs { active_index }
    }

    /// Create a split payload with child sizes and the selected axis: axis 0 lays children
    /// out horizontally, axis 1 vertically.
    pub fn stack(sizes: Vec<u32>, horizontal: bool) -> (r: PanelInfo)
        ensures
            r@ == (InfoValue::Stack { sizes: sizes@, axis: if horizontal { 0 } else { 1 } }),
    {
        PanelInfo::Stack { sizes, axis: if horizontal { 0 } else { 1 } }
    }

    /// Return the active tab index when this payload represents a tab group.
    pub fn active_index(&self) -> (r: Option<usize>)
        ensures
            r == (match self@ {
                InfoValue::Tabs { active_index } => Some(active_index as usize),
                _ => None,
            }),
    {
        match self {
            PanelInfo::Tabs { active_index } => Some(*active_index),
            _ => None,
        }
    }
}

impl PanelState {
    /// Create an empty placeholder state with no panel identity or children.
    pub fn empty() -> (r: PanelState)
        ensures
            r@.panel_name.len() == 0,
            r@.children.len() == 0,
            r@.info is Panel,
    {
        PanelState { panel_name: String::new(), children: Vec::new(), info: PanelInfo::default() }
    }

    /// Create a leaf state for the supplied serialized panel name.
    pub fn new(panel_name: String) -> (r: PanelState)
        ensures
            r@.panel_name == panel_name@,
            r@.children.len() == 0,
            r@.info is Panel,
    {
        PanelState { panel_name, children: Vec::new(), info: PanelInfo::default() }
    }

    /// Append one child state to this recursive layout node.
    pub fn child(self, child: PanelState) -> (r: PanelState)
        ensures
            r@ == (StateValue { children: self@.children.push(child@), ..self@ }),
    {
        let mut s = self;
        let ghost before = s.children@;
        s.children.push(child);
        proof {
            assert(s.children@.drop_last() == before);
        }
        s
    }

    /// Replace the structural payload associated with this state node.
    pub fn info(self, info: PanelInfo) -> (r: PanelState)
        ensures
            r@ == (StateValue { info: info@, ..self@ }),
    {
        PanelState { info, ..self }
    }
}

/// Whether a persisted split size is a fixed size: a single-precision value greater than
/// zero (positive infinity included; zero, negative values and NaN are not).
pub open spec fn is_above_zero_bits(b: u32) -> bool {
    0 < b <= 0x7f80_0000
}

/// The split slot a persisted size restores to.
pub open spec fn restored_size(b: u32) -> Option<u32> {
    if is_above_zero_bits(b) {
        Some(b)
    } else {
        None
    }
}

/// How many panels restoring a state builds: one per leaf, a leaf being a state whose
/// payload is a panel payload (its children, if any, are not read).
pub open spec fn leaf_count(s: StateValue) -> nat
    decreases s,
{
    match s.info {
        InfoValue::Panel(_) => 1,
        _ => leaf_count_all(s.children),
    }
}

/// How many panels restoring a sequence of states builds.
pub open spec fn leaf_count_all(cs: Seq<StateValue>) -> nat
    decreases cs,
{
    if cs.len() == 0 {
        0
    } else {
        leaf_count_all(cs.drop_last()) + leaf_count(cs.last())
    }
}

/// The node a state restores to when its leaves are rebuilt, in traversal order, as `ps`.
///
/// Tab and tile groups keep only the panels of their restored children, a split keeps its
/// children and restores each persisted size, and a leaf becomes its rebuilt panel.
pub open spec fn restored(s: StateValue, ps: Seq<DockPanel>) -> DockNode
    decreases s,
{
    match s.info {
        InfoValue::Tabs { active_index } => DockNode::Tabs {
            items: panels_of_all(restored_all(s.children, ps)),
            active_ix: active_index,
        },
        InfoValue::Stack { sizes, axis } => DockNode::Split {
            horizontal: axis == 0,
            children: restored_all(s.children, ps),
            sizes: sizes.map_values(|b: u32| restored_size(b)),
        },
        InfoValue::Tiles { metas } => DockNode::Tiles {
            items: panels_of_all(restored_all(s.children, ps)),
            metas,
        },
        InfoValue::Panel(_) => DockNode::Panel(ps[0]),
    }
}

/// The nodes a sequence of states restores to, each given its own run of `ps`.
pub open spec fn restored_all(cs: Seq<StateValue>, ps: Seq<DockPanel>) -> Seq<DockNode>
    decreases cs,
{
    if cs.len() == 0 {
        Seq::empty()
    } else {
        let k = leaf_count_all(cs.drop_last());
        restored_all(cs.drop_last(), ps.take(k as int)).push(restored(cs.last(), ps.skip(k as int)))
    }
}

/// The leaves of a state, in traversal order: the states a panel is rebuilt from.
pub open spec fn leaves(s: PanelState) -> Seq<PanelState>
    decreases s,
{
    match s.info {
        PanelInfo::Panel(_) => seq![s],
        _ => leaves_all(s.children@),
    }
}

/// The leaves of a sequence of states, in traversal order.
pub open spec fn leaves_all(cs: Seq<PanelState>) -> Seq<PanelState>
    decreases cs,
{
    if cs.len() == 0 {
        Seq::empty()
    } else {
        leaves_all(cs.drop_last()) + leaves(cs.last())
    }
}

/// Whether `n` is a restoration of `s` under the panel builder `f`: the node `s` restores to
/// when each of its leaves is rebuilt as a panel `f` may give for it.
pub open spec fn restore_of<F: Fn(&PanelState) -> DockPanel>(f: F, s: PanelState, n: DockNode) -> bool {
    exists|ps: Seq<DockPanel>|
        #![trigger restored(s@, ps)]
        ps.len() == leaves(s).len()
        && (forall|i: int| 0 <= i < ps.len() ==> #[trigger] f.ensures((&leaves(s)[i],), ps[i]))
        && n == restored(s@, ps)
}

/// Whether a panel builder can be called on every state.
pub open spec fn builder_callable<F: Fn(&PanelState) -> DockPanel>(f: F) -> bool {
    forall|s: &PanelState| #[trigger] f.requires((s,))
}

pub proof fn lemma_leaf_count_prefix(cs: Seq<StateValue>, i: int)
    requires
        0 <= i <= cs.len(),
    ensures
        leaf_count_all(cs.take(i)) <= leaf_count_all(cs),
    decreases cs.len(),
{
    if i < cs.len() {
        assert(cs.take(i) == cs.drop_last().take(i));
        lemma_leaf_count_prefix(cs.drop_last(), i);
    } else {
        assert(cs.take(i) == cs);
    }
}

pub proof fn lemma_leaves_count(s: PanelState)
    ensures
        leaves(s).len() == leaf_count(s@),
    decreases s,
{
    match s.info {
        PanelInfo::Panel(_) => {},
        _ => {
            lemma_leaves_count_all(s.children@);
        },
    }
}

pub proof fn lemma_leaves_count_all(cs: Seq<PanelState>)
    ensures
        leaves_all(cs).len() == leaf_count_all(view_states(cs)),
    decreases cs,
{
    if cs.len() > 0 {
        lemma_leaves_count_all(cs.drop_last());
        lemma_leaves_count(cs.last());
        assert(view_states(cs).drop_last() == view_states(cs.drop_last()));
    }
}

/// Restore a sequence of child states from the rebuilt panels at `start..`.
fn restore_children(children: &Vec<PanelState>, panels: &Vec<DockPanel>, start: usize) -> (r: Option<(Vec<DockItem>, usize)>)
    requires
        start <= panels.len(),
    ensures
        match r {
            Some((items, end)) => end == start + leaf_count_all(view_states(children@))
                && end <= panels.len()
                && view_items(items@) == restored_all(view_states(children@), panels@.subrange(start as int, end as int)),
            None => start + leaf_count_all(view_states(children@)) > panels.len(),
        },
    decreases children@,
{
    let ghost cv = view_states(children@);
    proof { lemma_view_states(children@); }
    let mut items: Vec<DockItem> = Vec::new();
    let mut pos = start;
    let mut i: usize = 0;
    while i < children.len()
        invariant
            i <= children.len(),
            cv == view_states(children@),
            cv.len() == children@.len(),
            forall|j: int| 0 <= j < children@.len() ==> #[trigger] cv[j] == view_state(children@[j]),
            start <= pos <= panels.len(),
            pos == start + leaf_count_all(cv.take(i as int)),
            view_items(items@) == restored_all(cv.take(i as int), panels@.subrange(start as int, pos as int)),
        decreases children.len() - i,
    {
        let ghost k = leaf_count_all(cv.take(i as int));
        assert(cv.take(i + 1).drop_last() == cv.take(i as int));
        assert(cv.take(i + 1).last() == cv[i as int]);
        match children[i].restore_at(panels, pos) {
            None => {
                proof {
                    lemma_leaf_count_prefix(cv, i + 1);
                }
                return None;
            },
            Some((item, end)) => {
                let ghost before = items@;
                items.push(item);
                proof {
                    assert(items@.drop_last() == before);
                    let ps = panels@.subrange(start as int, end as int);
                    assert(ps.take(k as int) == panels@.subrange(start as int, pos as int));
                    assert(ps.skip(k as int) == panels@.subrange(pos as int, end as int));
                }
                pos = end;
            },
        }
        i = i + 1;
    }
    assert(cv.take(children.len() as int) == cv);
    Some((items, pos))
}

/// The persisted split sizes restored to split slots.
fn restore_sizes(sizes: &Vec<u32>) -> (r: Vec<Option<u32>>)
    ensures
        r@ == sizes@.map_values(|b: u32| restored_size(b)),
{
    let mut r: Vec<Option<u32>> = Vec::new();
    let mut i: usize = 0;
    while i < sizes.len()
        invariant
            i <= sizes.len(),
            r@ == sizes@.take(i as int).map_values(|b: u32| restored_size(b)),
        decreases sizes.len() - i,
    {
        let b = sizes[i];
        if 0 < b && b <= 0x7f80_0000 {
            r.push(Some(b));
        } else {
            r.push(None);
        }
        assert(sizes@.take(i + 1).map_values(|b: u32| restored_size(b))
            == sizes@.take(i as int).map_values(|b: u32| restored_size(b)).push(restored_size(b)));
        i = i + 1;
    }
    assert(sizes@.take(sizes.len() as int) == sizes@);
    r
}

impl PanelState {
    /// Restore this state from the rebuilt panels at `start..`, returning the node and the
    /// position after the panels it used.
    fn restore_at(&self, panels: &Vec<DockPanel>, start: usize) -> (r: Option<(DockItem, usize)>)
        requires
            start <= panels.len(),
        ensures
            match r {
                Some((item, end)) => end == start + leaf_count(self@)
                    && end <= panels.len()
                    && item@ == restored(self@, panels@.subrange(start as int, end as int)),
                None => start + leaf_count(self@) > panels.len(),
            },
        decreases self,
    {
        match &self.info {
            PanelInfo::Panel(_) => {
                if start < panels.len() {
                    Some((DockItem::Panel(panels[start].share()), start + 1))
                } else {
                    None
                }
            },
            PanelInfo::Tabs { active_index } => {
                match restore_children(&self.children, panels, start) {
                    None => None,
                    Some((items, end)) => {
                        let flat = DockItem::Split { horizontal: true, items, sizes: Vec::new() };
                        let panels_out = flat.into_panels();
                        Some((DockItem::Tabs { items: panels_out, active_ix: *active_index }, end))
                    },
                }
            },
            PanelInfo::Tiles { metas } => {
                match restore_children(&self.children, panels, start) {
                    None => None,
                    Some((items, end)) => {
                        let flat = DockItem::Split { horizontal: true, items, sizes: Vec::new() };
                        let panels_out = flat.into_panels();
                        Some((DockItem::Tiles { items: panels_out, metas: metas.clone() }, end))
                    },
                }
            },
            PanelInfo::Stack { sizes, axis } => {
                match restore_children(&self.children, panels, start) {
                    None => None,
                    Some((items, end)) => {
                        let restored_sizes = restore_sizes(sizes);
                        Some((DockItem::Split { horizontal: *axis == 0, items, sizes: restored_sizes }, end))
                    },
                }
            },
        }
    }

    /// Restore this state from panels already rebuilt from its leaves, in traversal order.
    ///
    /// Returns `None` when the number of panels is not the number of leaves.
    pub fn restore_with_panels(&self, panels: &Vec<DockPanel>) -> (r: Option<DockItem>)
        ensures
            r is Some <==> panels@.len() == leaf_count(self@),
            r matches Some(item) ==> item@ == restored(self@, panels@),
    {
        match self.restore_at(panels, 0) {
            Some((item, end)) => {
                if end == panels.len() {
                    assert(panels@.subrange(0, end as int) == panels@);
                    Some(item)
                } else {
                    None
                }
            },
            None => None,
        }
    }
}

/// Build one panel per leaf of `children`, in traversal order, appending them to `out`.
fn build_children_leaves<F: Fn(&PanelState) -> DockPanel>(children: &Vec<PanelState>, build: &F, out: &mut Vec<DockPanel>)
    requires
        builder_callable(*build),
    ensures
        final(out)@.len() == old(out)@.len() + leaves_all(children@).len(),
        final(out)@.take(old(out)@.len() as int) == old(out)@,
        forall|i: int| 0 <= i < leaves_all(children@).len()
            ==> #[trigger] build.ensures((&leaves_all(children@)[i],), final(out)@[old(out)@.len() + i]),
    decreases children@,
{
    let ghost o = out@;
    let mut i: usize = 0;
    while i < children.len()
        invariant
            i <= children.len(),
            builder_callable(*build),
            out@.len() == o.len() + leaves_all(children@.take(i as int)).len(),
            out@.take(o.len() as int) == o,
            forall|j: int| 0 <= j < leaves_all(children@.take(i as int)).len()
                ==> #[trigger] build.ensures((&leaves_all(children@.take(i as int))[j],), out@[o.len() + j]),
        decreases children.len() - i,
    {
        let ghost mid = out@;
        let ghost done = leaves_all(children@.take(i as int));
        children[i].build_leaves(build, out);
        proof {
            assert(children@.take(i + 1).drop_last() == children@.take(i as int));
            assert(children@.take(i + 1).last() == children@[i as int]);
            let now = leaves_all(children@.take(i + 1));
            assert(now == done + leaves(children@[i as int]));
            assert(out@.take(mid.len() as int) == mid);
            assert forall|j: int| 0 <= j < now.len()
                implies #[trigger] build.ensures((&now[j],), out@[o.len() + j]) by {
                if j < done.len() {
                    assert(out@[o.len() + j] == mid[o.len() + j]);
                    assert(now[j] == done[j]);
                } else {
                    let k = j - done.len();
                    assert(now[j] == leaves(children@[i as int])[k]);
                    assert(build.ensures((&leaves(children@[i as int])[k],), out@[mid.len() + k]));
                    assert(mid.len() + k == o.len() + j);
                }
            }
            assert(out@.take(o.len() as int) == mid.take(o.len() as int));
        }
        i = i + 1;
    }
    assert(children@.take(children.len() as int) == children@);
}

impl PanelState {
    /// Build one panel per leaf of this state, in traversal order, appending them to `out`.
    fn build_leaves<F: Fn(&PanelState) -> DockPanel>(&self, build: &F, out: &mut Vec<DockPanel>)
        requires
            builder_callable(*build),
        ensures
            final(out)@.len() == old(out)@.len() + leaves(*self).len(),
            final(out)@.take(old(out)@.len() as int) == old(out)@,
            forall|i: int| 0 <= i < leaves(*self).len()
                ==> #[trigger] build.ensures((&leaves(*self)[i],), final(out)@[old(out)@.len() + i]),
        decreases self,
    {
        match &self.info {
            PanelInfo::Panel(_) => {
                let ghost o = out@;
                let p = build(self);
                out.push(p);
                assert(out@.take(o.len() as int) == o);
            },
            _ => {
                build_children_leaves(&self.children, build, out);
            },
        }
    }

    /// Reconstruct this persisted node as a live dock item, building each leaf's panel with
    /// `build`.
    ///
    /// The result is this state restored with the panels `build` gave for its leaves, in
    /// traversal order.
    pub fn to_item<F: Fn(&PanelState) -> DockPanel>(&self, build: &F) -> (r: DockItem)
        requires
            builder_callable(*build),
        ensures
            restore_of(*build, *self, r@),
    {
        let mut panels: Vec<DockPanel> = Vec::new();
        self.build_leaves(build, &mut panels);
        proof {
            lemma_leaves_count(*self);
            assert forall|i: int| 0 <= i < panels@.len()
                implies #[trigger] build.ensures((&leaves(*self)[i],), panels@[i]) by {
                assert(build.ensures((&leaves(*self)[i],), panels@[0 + i]));
            }
        }
        match self.restore_with_panels(&panels) {
            Some(item) => {
                assert(item@ == restored(self@, panels@));
                item
            },
            None => DockItem::Empty,
        }
    }
}

/// A copy of a payload (`serde_json::Value::clone`).
///
/// Trusted: the crate derives `Clone` for its value type, so the copy is an equal value.
#[verifier::external_body]
fn json_clone(v: &serde_json::Value) -> (r: serde_json::Value)
    ensures
        r == *v,
{
    v.clone()
}

/// Whether a panel dumper can be called on every panel.
pub open spec fn dumper_callable<F: Fn(&DockPanel) -> PanelState>(f: F) -> bool {
    forall|p: &DockPanel| #[trigger] f.requires((p,))
}

/// The persisted form of a split slot: its fixed size, or zero for a flexible slot.
pub open spec fn dumped_size(s: Option<u32>) -> u32 {
    match s {
        Some(b) => b,
        None => 0,
    }
}

/// The persisted sizes of a split with `n` children: one entry per child, so that each
/// size stays with its child.
pub open spec fn dumped_sizes(sizes: Seq<Option<u32>>, n: nat) -> Seq<u32> {
    Seq::new(n, |i: int| dumped_size(size_at(sizes, i)))
}

/// The persisted form of a node whose panels, in traversal order, persist as `states`.
///
/// An empty node persists as an unnamed leaf holding `null`.
pub open spec fn dumped(node: DockNode, states: Seq<PanelState>, null: serde_json::Value) -> StateValue
    decreases node,
{
    match node {
        DockNode::Empty => StateValue {
            panel_name: Seq::empty(),
            children: Seq::empty(),
            info: InfoValue::Panel(null),
        },
        DockNode::Panel(_) => view_state(states[0]),
        DockNode::Tabs { active_ix, .. } => StateValue {
            panel_name: "tabs"@,
            children: view_states(states),
            info: InfoValue::Tabs { active_index: active_ix },
        },
        DockNode::Tiles { metas, .. } => StateValue {
            panel_name: "tiles"@,
            children: view_states(states),
            info: InfoValue::Tiles { metas },
        },
        DockNode::Split { horizontal, children, sizes } => StateValue {
            panel_name: "stack"@,
            children: dumped_all(children, states, null),
            info: InfoValue::Stack {
                sizes: dumped_sizes(sizes, children.len()),
                axis: if horizontal { 0 } else { 1 },
            },
        },
    }
}

/// The persisted forms of a sequence of nodes, each given its own run of `states`.
pub open spec fn dumped_all(cs: Seq<DockNode>, states: Seq<PanelState>, null: serde_json::Value) -> Seq<StateValue>
    decreases cs,
{
    if cs.len() == 0 {
        Seq::empty()
    } else {
        let k = panels_of_all(cs.drop_last()).len();
        dumped_all(cs.drop_last(), states.take(k as int), null).push(
            dumped(cs.last(), states.skip(k as int), null),
        )
    }
}

/// Whether `s` is a persisted form of `node` under the panel dumper `f`: the form the node
/// takes when each of its panels persists as a state `f` may give for it.
pub open spec fn dump_of<F: Fn(&DockPanel) -> PanelState>(f: F, node: DockNode, null: serde_json::Value, s: StateValue) -> bool {
    exists|states: Seq<PanelState>|
        #![trigger dumped(node, states, null)]
        states.len() == panels_of(node).len()
        && (forall|i: int| 0 <= i < states.len() ==> #[trigger] f.ensures((&panels_of(node)[i],), states[i]))
        && s == dumped(node, states, null)
}

/// A state that stands in a slot whose state was taken: an unnamed tab group with no children,
/// showing its first tab.
fn vacant_state() -> (r: PanelState)
    ensures
        r@ == (StateValue {
            panel_name: Seq::empty(),
            children: Seq::empty(),
            info: InfoValue::Tabs { active_index: 0 },
        }),
{
    PanelState { panel_name: String::new(), children: Vec::new(), info: PanelInfo::Tabs { active_index: 0 } }
}

/// Take the state at `j`, leaving a vacant state in its slot.
fn take_state(states: &mut Vec<PanelState>, j: usize) -> (r: PanelState)
    requires
        j < old(states)@.len(),
    ensures
        r == old(states)@[j as int],
        final(states)@.len() == old(states)@.len(),
        forall|k: int| 0 <= k < old(states)@.len() && k != j ==> final(states)@[k] == old(states)@[k],
{
    let mut r = vacant_state();
    std::mem::swap(&mut r, &mut states[j]);
    r
}

/// Take the states at `start..start + n`, in order.
fn take_run(states: &mut Vec<PanelState>, start: usize, n: usize) -> (r: Vec<PanelState>)
    requires
        start + n <= old(states)@.len(),
    ensures
        r@ == old(states)@.subrange(start as int, start + n),
        final(states)@.len() == old(states)@.len(),
        forall|k: int| 0 <= k < old(states)@.len() && !(start <= k < start + n) ==> final(states)@[k] == old(states)@[k],
{
    let ghost orig = states@;
    let total = states.len();
    let mut r: Vec<PanelState> = Vec::new();
    let mut i: usize = 0;
    while i < n
        invariant
            i <= n,
            start + n <= orig.len(),
            total == orig.len(),
            states@.len() == orig.len(),
            r@ == orig.subrange(start as int, start + i),
            forall|k: int| 0 <= k < orig.len() && !(start <= k < start + i) ==> states@[k] == orig[k],
        decreases n - i,
    {
        let s = take_state(states, start + i);
        r.push(s);
        assert(orig.subrange(start as int, start + i + 1) == orig.subrange(start as int, start + i).push(orig[start + i]));
        i = i + 1;
    }
    r
}

/// The persisted sizes of a split with `n` children.
fn dump_sizes(sizes: &Vec<Option<u32>>, n: usize) -> (r: Vec<u32>)
    ensures
        r@ == dumped_sizes(sizes@, n as nat),
{
    let mut r: Vec<u32> = Vec::new();
    let mut i: usize = 0;
    while i < n
        invariant
            i <= n,
            r@.len() == i,
            forall|j: int| 0 <= j < i ==> r@[j] == dumped_size(size_at(sizes@, j)),
        decreases n - i,
    {
        let b: u32 = if i < sizes.len() {
            match sizes[i] {
                Some(b) => b,
                None => 0,
            }
        } else {
            0
        };
        r.push(b);
        i = i + 1;
    }
    assert(r@ == dumped_sizes(sizes@, n as nat));
    r
}

/// Persist a sequence of child nodes from the panel states at `start..`.
fn dump_children(items: &Vec<DockItem>, states: &mut Vec<PanelState>, start: usize, null: &serde_json::Value) -> (r: (Vec<PanelState>, usize))
    requires
        start + panels_of_all(view_items(items@)).len() <= old(states)@.len(),
    ensures
        r.1 == start + panels_of_all(view_items(items@)).len(),
        view_states(r.0@) == dumped_all(view_items(items@), old(states)@.subrange(start as int, r.1 as int), *null),
        final(states)@.len() == old(states)@.len(),
        forall|k: int| 0 <= k < old(states)@.len() && !(start <= k < r.1) ==> final(states)@[k] == old(states)@[k],
    decreases items@,
{
    let ghost orig = states@;
    let ghost cv = view_items(items@);
    proof {
        lemma_view_items(items@);
    }
    let mut out: Vec<PanelState> = Vec::new();
    let mut pos = start;
    let mut i: usize = 0;
    while i < items.len()
        invariant
            i <= items.len(),
            cv == view_items(items@),
            cv.len() == items@.len(),
            forall|j: int| 0 <= j < items@.len() ==> #[trigger] cv[j] == items@[j]@,
            start + panels_of_all(cv).len() <= orig.len(),
            states@.len() == orig.len(),
            pos == start + panels_of_all(cv.take(i as int)).len(),
            forall|k: int| 0 <= k < orig.len() && !(start <= k < pos) ==> states@[k] == orig[k],
            view_states(out@) == dumped_all(cv.take(i as int), orig.subrange(start as int, pos as int), *null),
        decreases items.len() - i,
    {
        let ghost k = panels_of_all(cv.take(i as int)).len();
        let ghost mid = states@;
        proof {
            assert(cv.take(i + 1).drop_last() == cv.take(i as int));
            assert(cv.take(i + 1).last() == cv[i as int]);
            crate::dock::item::lemma_panels_of_all_take(cv, i as int);
            lemma_panels_prefix(cv, i + 1);
        }
        let (st, end) = items[i].dump_from(states, pos, null);
        let ghost before = out@;
        out.push(st);
        proof {
            assert(out@.drop_last() == before);
            assert(view_states(out@) == view_states(before).push(view_state(st)));
            let run = orig.subrange(start as int, end as int);
            assert(run.take(k as int) == orig.subrange(start as int, pos as int));
            assert(run.skip(k as int) == orig.subrange(pos as int, end as int));
            assert(mid.subrange(pos as int, end as int) == orig.subrange(pos as int, end as int));
        }
        pos = end;
        i = i + 1;
    }
    assert(cv.take(items.len() as int) == cv);
    (out, pos)
}

pub proof fn lemma_panels_prefix(cs: Seq<DockNode>, i: int)
    requires
        0 <= i <= cs.len(),
    ensures
        panels_of_all(cs.take(i)).len() <= panels_of_all(cs).len(),
    decreases cs.len(),
{
    if i < cs.len() {
        assert(cs.take(i) == cs.drop_last().take(i));
        lemma_panels_prefix(cs.drop_last(), i);
    } else {
        assert(cs.take(i) == cs);
    }
}

impl DockItem {
    /// Persist this node from the panel states at `start..`, one per panel occurrence in
    /// traversal order, returning the state and the position after the states it used.
    fn dump_from(&self, states: &mut Vec<PanelState>, start: usize, null: &serde_json::Value) -> (r: (PanelState, usize))
        requires
            start + panels_of(self@).len() <= old(states)@.len(),
        ensures
            r.1 == start + panels_of(self@).len(),
            r.0@ == dumped(self@, old(states)@.subrange(start as int, r.1 as int), *null),
            final(states)@.len() == old(states)@.len(),
            forall|k: int| 0 <= k < old(states)@.len() && !(start <= k < r.1) ==> final(states)@[k] == old(states)@[k],
        decreases self,
    {
        let total = states.len();
        match self {
            DockItem::Empty => {
                let st = PanelState { panel_name: String::new(), children: Vec::new(), info: PanelInfo::Panel(json_clone(null)) };
                proof {
                    lemma_view_states(Seq::<PanelState>::empty());
                }
                (st, start)
            },
            DockItem::Panel(_) => {
                let ghost orig = states@;
                let st = take_state(states, start);
                assert(orig.subrange(start as int, start + 1)[0] == orig[start as int]);
                (st, start + 1)
            },
            DockItem::Tabs { items, active_ix } => {
                let children = take_run(states, start, items.len());
                let st = PanelState { panel_name: "tabs".to_string(), children, info: PanelInfo::Tabs { active_index: *active_ix } };
                (st, start + items.len())
            },
            DockItem::Tiles { items, metas } => {
                let children = take_run(states, start, items.len());
                let st = PanelState { panel_name: "tiles".to_string(), children, info: PanelInfo::Tiles { metas: metas.clone() } };
                (st, start + items.len())
            },
            DockItem::Split { horizontal, items, sizes } => {
                let (children, end) = dump_children(items, states, start, null);
                let sz = dump_sizes(sizes, items.len());
                proof {
                    lemma_view_items(items@);
                }
                let st = PanelState {
                    panel_name: "stack".to_string(),
                    children,
                    info: PanelInfo::Stack { sizes: sz, axis: if *horizontal { 0 } else { 1 } },
                };
                (st, end)
            },
        }
    }
}

impl DockItem {
    /// Persist this node, each panel occurrence persisting as the state `dump_panel` gives
    /// for it.
    pub fn dump<F: Fn(&DockPanel) -> PanelState>(&self, dump_panel: &F) -> (r: PanelState)
        requires
            dumper_callable(*dump_panel),
        ensures
            exists|null: serde_json::Value| dump_of(*dump_panel, self@, null, r@),
    {
        let null = json_null();
        self.dump_with_null(dump_panel, &null)
    }

    /// Persist this node, an empty node persisting with the payload `null`.
    fn dump_with_null<F: Fn(&DockPanel) -> PanelState>(&self, dump_panel: &F, null: &serde_json::Value) -> (r: PanelState)
        requires
            dumper_callable(*dump_panel),
        ensures
            dump_of(*dump_panel, self@, *null, r@),
    {
        let mut panels: Vec<DockPanel> = Vec::new();
        self.collect_occurrences(&mut panels);
        assert(panels@ == panels_of(self@));
        let mut states: Vec<PanelState> = Vec::new();
        let mut i: usize = 0;
        while i < panels.len()
            invariant
                i <= panels.len(),
                dumper_callable(*dump_panel),
                states@.len() == i,
                forall|j: int| 0 <= j < i ==> #[trigger] dump_panel.ensures((&panels@[j],), states@[j]),
            decreases panels.len() - i,
        {
            let st = dump_panel(&panels[i]);
            states.push(st);
            i = i + 1;
        }
        let ghost all = states@;
        let (st, end) = self.dump_from(&mut states, 0, null);
        assert(all.subrange(0, end as int) == all);
        assert(st@ == dumped(self@, all, *null));
        st
    }
}

/// Persisted state for one side dock and its placement.
///
/// `size` is a single-precision value held as its bit pattern.
#[derive(Debug)]
pub struct DockState {
    pub panel: PanelState,
    pub placement: DockPlacement,
    pub size: u32,
    pub open: bool,
}

/// Persisted state for the center area and optional side docks.
#[derive(Debug)]
pub struct DockAreaState {
    pub version: Option<usize>,
    pub center: PanelState,
    pub left_dock: Option<DockState>,
    pub right_dock: Option<DockState>,
    pub bottom_dock: Option<DockState>,
}

impl Default for DockAreaState {
    /// An unversioned state with an empty center and no side docks.
    fn default() -> (r: DockAreaState)
        ensures
            r.version is None,
            r.center@.panel_name.len() == 0,
            r.center@.children.len() == 0,
            r.center@.info is Panel,
            r.left_dock is None,
            r.right_dock is None,
            r.bottom_dock is None,
    {
        DockAreaState { version: None, center: PanelState::empty(), left_dock: None, right_dock: None, bottom_dock: None }
    }
}

/// Whether `d` persists the side dock `side` at `placement` under the panel dumper `f`.
pub open spec fn side_dump_of<F: Fn(&DockPanel) -> PanelState>(
    f: F,
    side: Option<DockSide>,
    placement: DockPlacement,
    null: serde_json::Value,
    d: Option<DockState>,
) -> bool {
    match (side, d) {
        (None, None) => true,
        (Some(s), Some(d)) => dump_of(f, s.item@, null, d.panel@) && d.placement == placement && d.size == s.size
            && d.open == s.open,
        _ => false,
    }
}

/// Whether `s` restores the persisted side dock `d` under the panel builder `f`.
pub open spec fn side_restore_of<F: Fn(&PanelState) -> DockPanel>(f: F, d: Option<DockState>, s: Option<DockSide>) -> bool {
    match (d, s) {
        (None, None) => true,
        (Some(d), Some(s)) => restore_of(f, d.panel, s.item@) && s.size == d.size && s.open == d.open,
        _ => false,
    }
}

/// Persist one side dock.
fn dump_side<F: Fn(&DockPanel) -> PanelState>(
    side: &Option<DockSide>,
    placement: DockPlacement,
    dump_panel: &F,
    null: &serde_json::Value,
) -> (r: Option<DockState>)
    requires
        dumper_callable(*dump_panel),
    ensures
        side_dump_of(*dump_panel, *side, placement, *null, r),
{
    match side {
        Some(s) => Some(DockState {
            panel: s.item.dump_with_null(dump_panel, null),
            placement,
            size: s.size,
            open: s.open,
        }),
        None => None,
    }
}

/// Restore one persisted side dock.
fn restore_side<F: Fn(&PanelState) -> DockPanel>(d: &Option<DockState>, build: &F) -> (r: Option<DockSide>)
    requires
        builder_callable(*build),
    ensures
        side_restore_of(*build, *d, r),
{
    match d {
        Some(d) => Some(DockSide { item: d.panel.to_item(build), size: d.size, open: d.open }),
        None => None,
    }
}

impl DockArea {
    /// Persist the version, the center and each side dock with its placement, size and
    /// open state, each panel persisting as the state `dump_panel` gives for it.
    pub fn dump<F: Fn(&DockPanel) -> PanelState>(&self, dump_panel: &F) -> (r: DockAreaState)
        requires
            dumper_callable(*dump_panel),
        ensures
            r.version == self.version,
            exists|null: serde_json::Value|
                #![trigger dump_of(*dump_panel, self.center@, null, r.center@)]
                dump_of(*dump_panel, self.center@, null, r.center@)
                && side_dump_of(*dump_panel, self.left, DockPlacement::Left, null, r.left_dock)
                && side_dump_of(*dump_panel, self.right, DockPlacement::Right, null, r.right_dock)
                && side_dump_of(*dump_panel, self.bottom, DockPlacement::Bottom, null, r.bottom_dock),
    {
        let null = json_null();
        DockAreaState {
            version: self.version,
            center: self.center.dump_with_null(dump_panel, &null),
            left_dock: dump_side(&self.left, DockPlacement::Left, dump_panel, &null),
            right_dock: dump_side(&self.right, DockPlacement::Right, dump_panel, &null),
            bottom_dock: dump_side(&self.bottom, DockPlacement::Bottom, dump_panel, &null),
        }
    }

    /// Recreate a dock from persisted state, rebuilding each leaf's panel with `build`.
    ///
    /// Each side dock keeps its size and open state; the placement stored with it is not
    /// read. Nothing is zoomed, every interaction is allowed, no panel is pinned and no event
    /// is pending.
    pub fn from_state<F: Fn(&PanelState) -> DockPanel>(id: String, state: DockAreaState, build: &F) -> (r: DockArea)
        requires
            builder_callable(*build),
        ensures
            r.id == id,
            r.version == state.version,
            restore_of(*build, state.center, r.center@),
            side_restore_of(*build, state.left_dock, r.left),
            side_restore_of(*build, state.right_dock, r.right),
            side_restore_of(*build, state.bottom_dock, r.bottom),
            r.zoomed_panel is None,
            r.enable_split_drop,
            r.layout_editable,
            r.detach_allowed,
            r.close_allowed,
            r.pinned_leading_panels@.len() == 0,
            r.events@.len() == 0,
            r.panel_calls@.len() == 0,
    {
        DockArea {
            id,
            version: state.version,
            center: state.center.to_item(build),
            left: restore_side(&state.left_dock, build),
            right: restore_side(&state.right_dock, build),
            bottom: restore_side(&state.bottom_dock, build),
            zoomed_panel: None,
            enable_split_drop: true,
            layout_editable: true,
            detach_allowed: true,
            close_allowed: true,
            pinned_leading_panels: Vec::new(),
            events: Vec::new(),
            panel_calls: Vec::new(),
        }
    }

    /// Replace the version, the center and the side docks with persisted state, rebuilding
    /// each leaf's panel with `build`, and clear the zoom.
    ///
    /// The interaction policy, the pinned panels and the pending events are kept; loading
    /// announces no layout change. Each loaded panel occurrence, center then side docks in
    /// tree order, is told that it joined the dock. It always succeeds.
    pub fn load<F: Fn(&PanelState) -> DockPanel>(&mut self, state: DockAreaState, build: &F) -> (r: Result<(), String>)
        requires
            builder_callable(*build),
        ensures
            final(self).panel_calls@ == old(self).panel_calls@ + added_each(occurrences_of(layout_of(*final(self)))),
            r is Ok,
            final(self).id == old(self).id,
            final(self).version == state.version,
            restore_of(*build, state.center, final(self).center@),
            side_restore_of(*build, state.left_dock, final(self).left),
            side_restore_of(*build, state.right_dock, final(self).right),
            side_restore_of(*build, state.bottom_dock, final(self).bottom),
            final(self).zoomed_panel is None,
            final(self).enable_split_drop == old(self).enable_split_drop,
            final(self).layout_editable == old(self).layout_editable,
            final(self).detach_allowed == old(self).detach_allowed,
            final(self).close_allowed == old(self).close_allowed,
            final(self).pinned_leading_panels@ == old(self).pinned_leading_panels@,
            final(self).events@ == old(self).events@,
    {
        self.version = state.version;
        self.center = state.center.to_item(build);
        self.left = restore_side(&state.left_dock, build);
        self.right = restore_side(&state.right_dock, build);
        self.bottom = restore_side(&state.bottom_dock, build);
        self.zoomed_panel = None;
        let occ = self.occurrences();
        push_added_each(&mut self.panel_calls, &occ);
        Ok(())
    }
}

/// Whether no node of a tree is empty.
pub open spec fn no_empty(node: DockNode) -> bool
    decreases node,
{
    match node {
        DockNode::Empty => false,
        DockNode::Split { children, .. } => no_empty_all(children),
        _ => true,
    }
}

/// Whether no node of a sequence of trees is empty.
pub open spec fn no_empty_all(cs: Seq<DockNode>) -> bool
    decreases cs,
{
    cs.len() == 0 || (no_empty_all(cs.drop_last()) && no_empty(cs.last()))
}

/// A tree as it comes back from being persisted and restored: each split has one slot per
/// child, fixed exactly where a positive size was stored for that child.
pub open spec fn round_tripped(node: DockNode) -> DockNode
    decreases node,
{
    match node {
        DockNode::Split { horizontal, children, sizes } => DockNode::Split {
            horizontal,
            children: round_tripped_all(children),
            sizes: Seq::new(children.len(), |i: int| restored_size(dumped_size(size_at(sizes, i)))),
        },
        _ => node,
    }
}

/// A sequence of trees as they come back from being persisted and restored.
pub open spec fn round_tripped_all(cs: Seq<DockNode>) -> Seq<DockNode>
    decreases cs,
{
    if cs.len() == 0 {
        Seq::empty()
    } else {
        round_tripped_all(cs.drop_last()).push(round_tripped(cs.last()))
    }
}

/// Whether every state is a leaf: one a panel is rebuilt from.
pub open spec fn all_leaves(states: Seq<PanelState>) -> bool {
    forall|i: int| 0 <= i < states.len() ==> #[trigger] states[i].info is Panel
}

/// A run of leaf states restores to one panel each.
proof fn lemma_leaf_run(states: Seq<PanelState>, ps: Seq<DockPanel>)
    requires
        all_leaves(states),
        ps.len() == states.len(),
    ensures
        leaf_count_all(view_states(states)) == states.len(),
        panels_of_all(restored_all(view_states(states), ps)) == ps,
    decreases states.len(),
{
    if states.len() > 0 {
        let k = states.len() - 1;
        let vs = view_states(states);
        assert(vs.drop_last() == view_states(states.drop_last()));
        assert(all_leaves(states.drop_last())) by {
            assert forall|i: int| 0 <= i < states.drop_last().len() implies #[trigger] states.drop_last()[i].info is Panel by {
                assert(states[i].info is Panel);
            }
        }
        lemma_leaf_run(states.drop_last(), ps.take(k));
        assert(states[k].info is Panel);
        assert(states.last() == states[k]);
        assert(vs.last() == view_state(states[k]));
        assert(view_state(states[k]).info is Panel);
        assert(leaf_count(vs.last()) == 1);
        assert(ps.skip(k)[0] == ps[k]);
        let prefix = restored_all(vs.drop_last(), ps.take(k));
        let last = restored(vs.last(), ps.skip(k));
        assert(last == DockNode::Panel(ps[k]));
        lemma_panels_of_all_push(prefix, last);
        assert(ps.take(k) + seq![ps[k]] == ps);
    }
}

/// Persisting and restoring a tree without empty nodes gives it back up to split sizes.
proof fn lemma_round_trip_node(node: DockNode, states: Seq<PanelState>, null: serde_json::Value)
    requires
        no_empty(node),
        states.len() == panels_of(node).len(),
        all_leaves(states),
    ensures
        leaf_count(dumped(node, states, null)) == panels_of(node).len(),
        restored(dumped(node, states, null), panels_of(node)) == round_tripped(node),
    decreases node,
{
    match node {
        DockNode::Empty => {},
        DockNode::Panel(p) => {
            assert(states[0].info is Panel);
        },
        DockNode::Tabs { items, active_ix } => {
            lemma_leaf_run(states, items);
        },
        DockNode::Tiles { items, metas } => {
            lemma_leaf_run(states, items);
        },
        DockNode::Split { horizontal, children, sizes } => {
            lemma_round_trip_all(children, states, null);
            let n = children.len();
            assert(dumped_sizes(sizes, n).map_values(|b: u32| restored_size(b))
                == Seq::new(n, |i: int| restored_size(dumped_size(size_at(sizes, i)))));
        },
    }
}

/// Persisting and restoring a sequence of trees without empty nodes gives them back up to
/// split sizes.
proof fn lemma_round_trip_all(cs: Seq<DockNode>, states: Seq<PanelState>, null: serde_json::Value)
    requires
        no_empty_all(cs),
        states.len() == panels_of_all(cs).len(),
        all_leaves(states),
    ensures
        leaf_count_all(dumped_all(cs, states, null)) == panels_of_all(cs).len(),
        restored_all(dumped_all(cs, states, null), panels_of_all(cs)) == round_tripped_all(cs),
    decreases cs,
{
    if cs.len() > 0 {
        let init = cs.drop_last();
        let k = panels_of_all(init).len();
        let ps = panels_of_all(cs);
        assert(ps == panels_of_all(init) + panels_of(cs.last()));
        assert(all_leaves(states.take(k as int))) by {
            assert forall|i: int| 0 <= i < states.take(k as int).len() implies #[trigger] states.take(k as int)[i].info is Panel by {
                assert(states[i].info is Panel);
            }
        }
        assert(all_leaves(states.skip(k as int))) by {
            assert forall|i: int| 0 <= i < states.skip(k as int).len() implies #[trigger] states.skip(k as int)[i].info is Panel by {
                assert(states[k + i].info is Panel);
            }
        }
        lemma_round_trip_all(init, states.take(k as int), null);
        lemma_round_trip_node(cs.last(), states.skip(k as int), null);
        let d = dumped_all(cs, states, null);
        assert(d.drop_last() == dumped_all(init, states.take(k as int), null));
        assert(d.last() == dumped(cs.last(), states.skip(k as int), null));
        assert(ps.take(k as int) == panels_of_all(init));
        assert(ps.skip(k as int) == panels_of(cs.last()));
    }
}

/// Persisting a tree and restoring it, each panel rebuilt as itself from the leaf state it
/// persisted as, gives the tree back with one split slot per child, fixed exactly where a
/// positive size was stored.
///
/// Empty nodes are left out: an empty node persists as an unnamed leaf, which restores as
/// a panel.
pub proof fn lemma_restore_of_dump(node: DockNode, states: Seq<PanelState>, null: serde_json::Value)
    requires
        no_empty(node),
        states.len() == panels_of(node).len(),
        all_leaves(states),
    ensures
        leaf_count(dumped(node, states, null)) == panels_of(node).len(),
        restored(dumped(node, states, null), panels_of(node)) == round_tripped(node),
{
    lemma_round_trip_node(node, states, null);
}

proof fn lemma_round_tripped_all_len(cs: Seq<DockNode>)
    ensures
        round_tripped_all(cs).len() == cs.len(),
    decreases cs.len(),
{
    if cs.len() > 0 {
        lemma_round_tripped_all_len(cs.drop_last());
    }
}

/// A split whose stored sizes are each absent or finite and positive comes back from being
/// persisted and restored with its orientation, one child per child, and each stored size at
/// its own child (an absent size stays absent, so no size shifts to another child).
pub proof fn lemma_split_sizes_survive_restore(node: DockNode, states: Seq<PanelState>, null: serde_json::Value)
    requires
        node is Split,
        no_empty(node),
        states.len() == panels_of(node).len(),
        all_leaves(states),
        forall|i: int| 0 <= i < node->sizes.len() && (#[trigger] node->sizes[i]) is Some
            ==> super::topology::is_positive_bits(node->sizes[i]->0),
    ensures
        ({
            let r = restored(dumped(node, states, null), panels_of(node));
            &&& r is Split
            &&& r->horizontal == node->horizontal
            &&& r->children.len() == node->children.len()
            &&& r->sizes == Seq::new(node->children.len(), |i: int| size_at(node->sizes, i))
        }),
{
    lemma_restore_of_dump(node, states, null);
    let children = node->children;
    let sizes = node->sizes;
    lemma_round_tripped_all_len(children);
    let rt = round_tripped(node);
    assert(rt->sizes =~= Seq::new(children.len(), |i: int| size_at(sizes, i))) by {
        assert forall|i: int| 0 <= i < children.len() implies #[trigger] rt->sizes[i] == size_at(sizes, i) by {
            if 0 <= i < sizes.len() && sizes[i] is Some {
                assert(super::topology::is_positive_bits(sizes[i]->0));
            }
        }
    }
}

} // verus!
