//! What the dock's views decide each frame, apart from drawing: which tab a group shows and
//! when it tells its panels again which one is in front, how pinned tabs are marked, where a
//! dropped tab goes, which panel controls appear, how split slots are sized and in which order
//! tiles are painted.

use vstd::prelude::*;

use super::area::{strings_view, DockRoot};
use super::item::{in_names, name_in, size_at, str_eq, TileMeta};
use super::named::{name_view, shown_index};

verus! {

/// The tab a group shows: its active index, or its last tab when the index is past the end
/// (the first slot of an empty group).
pub fn shown_tab(active_ix: usize, len: usize) -> (r: usize)
    ensures
        r == if len == 0 { 0 } else { shown_index(len as nat, active_ix as nat) },
{
    if len == 0 {
        0
    } else if active_ix < len {
        active_ix
    } else {
        len - 1
    }
}

/// For each tab of a group, whether its panel is pinned, and whether it ends the run of
/// pinned tabs (the next tab is not pinned, or there is none).
pub fn pinned_marks(names: &Vec<String>, pinned: &Vec<String>) -> (r: Vec<(bool, bool)>)
    ensures
        r@.len() == names@.len(),
        forall|i: int| 0 <= i < names@.len() ==> (#[trigger] r@[i]).0 == in_names(names@[i]@, pinned@),
        forall|i: int| 0 <= i < names@.len() ==> (#[trigger] r@[i]).1 == (in_names(names@[i]@, pinned@)
            && (i + 1 == names@.len() || !in_names(names@[i + 1]@, pinned@))),
{
    let mut r: Vec<(bool, bool)> = Vec::new();
    let mut i: usize = 0;
    while i < names.len()
        invariant
            i <= names.len(),
            r@.len() == i,
            forall|k: int| 0 <= k < i ==> (#[trigger] r@[k]).0 == in_names(names@[k]@, pinned@),
            forall|k: int| 0 <= k < i ==> (#[trigger] r@[k]).1 == (in_names(names@[k]@, pinned@)
                && (k + 1 == names@.len() || !in_names(names@[k + 1]@, pinned@))),
        decreases names.len() - i,
    {
        let is_pinned = name_in(names[i].as_str(), pinned);
        let ends_run = is_pinned && (i + 1 == names.len() || !name_in(names[i + 1].as_str(), pinned));
        r.push((is_pinned, ends_run));
        i = i + 1;
    }
    r
}

/// Where a tab dropped onto a tab group goes.
#[derive(Clone, Copy, Debug, PartialEq, Eq, Structural)]
pub enum TabDropAction {
    /// The tab comes from another dock: the drop is ignored.
    Ignore,
    /// The tab comes from this group: it is reordered before the tab it was dropped on.
    Reorder,
    /// The tab comes from elsewhere in this dock: it moves into this group.
    MoveHere,
}

/// Whether two split paths are equal.
fn same_path(a: &Vec<usize>, b: &Vec<usize>) -> (r: bool)
    ensures
        r == (a@ == b@),
{
    if a.len() != b.len() {
        return false;
    }
    let mut i: usize = 0;
    while i < a.len()
        invariant
            i <= a.len(),
            a.len() == b.len(),
            forall|k: int| 0 <= k < i ==> a@[k] == b@[k],
        decreases a.len() - i,
    {
        if a[i] != b[i] {
            return false;
        }
        i = i + 1;
    }
    assert(a@ =~= b@);
    true
}

/// Where a dropped tab goes: nowhere from another dock, a reorder within its own group, or a
/// move into this group.
pub fn tab_drop_action(same_dock: bool, drag_root: DockRoot, drag_path: &Vec<usize>, root: DockRoot, path: &Vec<usize>) -> (r: TabDropAction)
    ensures
        r == if !same_dock {
            TabDropAction::Ignore
        } else if drag_root == root && drag_path@ == path@ {
            TabDropAction::Reorder
        } else {
            TabDropAction::MoveHere
        },
{
    if !same_dock {
        TabDropAction::Ignore
    } else if drag_root == root && same_path(drag_path, path) {
        TabDropAction::Reorder
    } else {
        TabDropAction::MoveHere
    }
}

/// The controls shown in a group's header for its front panel.
#[derive(Clone, Copy, Debug, PartialEq, Eq, Structural)]
pub struct PanelControls {
    pub detach: bool,
    pub zoom: bool,
    /// Whether the zoom control shows the panel as zoomed (it then restores the layout).
    pub zoomed: bool,
    pub close: bool,
}

/// The header controls of a front panel: detach and close only while the layout is editable
/// and the dock and the panel allow them, zoom where the panel allows it, marked zoomed when
/// the dock zooms this very panel; none when the group shows no panel controls.
pub fn panel_controls(
    show: bool,
    layout_editable: bool,
    detach_allowed: bool,
    close_allowed: bool,
    detachable: bool,
    zoomable: bool,
    closable: bool,
    zoomed_panel: &Option<String>,
    panel_name: &String,
) -> (r: PanelControls)
    ensures
        r.detach == (show && layout_editable && detach_allowed && detachable),
        r.zoom == (show && zoomable),
        r.zoomed == (zoomed_panel matches Some(z) && z@ == panel_name@),
        r.close == (show && layout_editable && close_allowed && closable),
{
    let zoomed = match zoomed_panel {
        Some(z) => str_eq(z.as_str(), panel_name.as_str()),
        None => false,
    };
    PanelControls {
        detach: show && layout_editable && detach_allowed && detachable,
        zoom: show && zoomable,
        zoomed,
        close: show && layout_editable && close_allowed && closable,
    }
}

/// Whether every one of the first `n` slots of a split has a stored size.
pub open spec fn all_fixed(sizes: Seq<Option<u32>>, n: int) -> bool {
    n <= sizes.len() && forall|i: int| 0 <= i < n ==> (#[trigger] sizes[i]) is Some
}

/// The size each of a split's `n` slots is laid out with: its stored size, flexible where
/// none is stored, except that when every slot of a split of two or more has a size the
/// first one flexes, so the split always fills its space.
pub fn split_slot_sizes(sizes: &Vec<Option<u32>>, n: usize) -> (r: Vec<Option<u32>>)
    ensures
        r@.len() == n,
        forall|i: int| 0 <= i < n ==> #[trigger] r@[i] == if n > 1 && all_fixed(sizes@, n as int) && i == 0 {
            None
        } else {
            size_at(sizes@, i)
        },
{
    let mut fixed = n > 1 && sizes.len() >= n;
    let mut j: usize = 0;
    while fixed && j < n
        invariant
            j <= n,
            fixed ==> n <= sizes@.len() && n > 1,
            fixed ==> forall|i: int| 0 <= i < j ==> (#[trigger] sizes@[i]) is Some,
            !fixed ==> !(n > 1 && all_fixed(sizes@, n as int)),
        decreases n - j,
    {
        if sizes[j].is_none() {
            fixed = false;
        }
        j = j + 1;
    }
    assert(fixed == (n > 1 && all_fixed(sizes@, n as int)));
    let mut r: Vec<Option<u32>> = Vec::new();
    let mut i: usize = 0;
    while i < n
        invariant
            i <= n,
            fixed == (n > 1 && all_fixed(sizes@, n as int)),
            r@.len() == i,
            forall|k: int| 0 <= k < i ==> #[trigger] r@[k] == if fixed && k == 0 { None } else { size_at(sizes@, k) },
        decreases n - i,
    {
        let slot = if fixed && i == 0 {
            None
        } else if i < sizes.len() {
            sizes[i]
        } else {
            None
        };
        r.push(slot);
        i = i + 1;
    }
    r
}

/// The key a tile is painted by: its stored stacking index, or its position when it has no
/// stored geometry.
pub open spec fn paint_key(metas: Seq<TileMeta>, ix: int) -> int {
    if 0 <= ix < metas.len() {
        metas[ix].z_index as int
    } else {
        ix
    }
}

/// Whether tile `a` is painted before tile `b`: by stacking key, ties in position order.
pub open spec fn painted_before(metas: Seq<TileMeta>, a: int, b: int) -> bool {
    paint_key(metas, a) < paint_key(metas, b) || (paint_key(metas, a) == paint_key(metas, b) && a < b)
}

/// Whether tile `a` is painted before tile `b`.
fn paints_before(metas: &Vec<TileMeta>, a: usize, b: usize) -> (r: bool)
    ensures
        r == painted_before(metas@, a as int, b as int),
{
    let ka = if a < metas.len() { metas[a].z_index } else { a };
    let kb = if b < metas.len() { metas[b].z_index } else { b };
    ka < kb || (ka == kb && a < b)
}

/// The order in which a tile group's `n` tiles are painted, bottom first: by stacking index,
/// tiles with equal indices in position order.
pub fn tile_paint_order(metas: &Vec<TileMeta>, n: usize) -> (r: Vec<usize>)
    ensures
        r@.len() == n,
        forall|k: int| 0 <= k < n ==> #[trigger] r@[k] < n,
        forall|ix: usize| ix < n ==> #[trigger] r@.contains(ix),
        forall|a: int, b: int| 0 <= a < b < n ==> painted_before(metas@, #[trigger] r@[a] as int, #[trigger] r@[b] as int),
{
    let mut r: Vec<usize> = Vec::new();
    let mut v: usize = 0;
    while v < n
        invariant
            v <= n,
            r@.len() == v,
            forall|k: int| 0 <= k < v ==> #[trigger] r@[k] < v,
            forall|ix: usize| ix < v ==> #[trigger] r@.contains(ix),
            forall|a: int, b: int| 0 <= a < b < v ==> painted_before(metas@, #[trigger] r@[a] as int, #[trigger] r@[b] as int),
        decreases n - v,
    {
        let mut p: usize = 0;
        while p < r.len() && paints_before(metas, r[p], v)
            invariant
                p <= r@.len(),
                r@.len() == v,
                forall|k: int| 0 <= k < p ==> painted_before(metas@, #[trigger] r@[k] as int, v as int),
            decreases r@.len() - p,
        {
            p = p + 1;
        }
        let ghost old_r = r@;
        // every tile after the insertion point is painted after `v`
        assert forall|k: int| p <= k < old_r.len() implies painted_before(metas@, v as int, #[trigger] old_r[k] as int) by {
            assert(!painted_before(metas@, old_r[p as int] as int, v as int));
            assert(old_r[p as int] < v);
            if k > p {
                assert(painted_before(metas@, old_r[p as int] as int, old_r[k] as int));
            }
        }
        r.insert(p, v);
        assert forall|ix: usize| ix < v + 1 implies #[trigger] r@.contains(ix) by {
            if ix < v {
                assert(old_r.contains(ix));
                let k = old_r.index_of(ix);
                if k < p {
                    assert(r@[k] == old_r[k]);
                } else {
                    assert(r@[k + 1] == old_r[k]);
                }
            } else {
                assert(r@[p as int] == v);
            }
        }
        assert forall|a: int, b: int| 0 <= a < b < v + 1 implies painted_before(metas@, #[trigger] r@[a] as int, #[trigger] r@[b] as int) by {
            if b < p {
                assert(r@[a] == old_r[a] && r@[b] == old_r[b]);
            } else if b == p {
                assert(r@[a] == old_r[a]);
            } else if a < p {
                assert(r@[a] == old_r[a] && r@[b] == old_r[b - 1]);
                if a < p {
                    assert(painted_before(metas@, old_r[a] as int, v as int));
                }
            } else if a == p {
                assert(r@[b] == old_r[b - 1]);
            } else {
                assert(r@[a] == old_r[a - 1] && r@[b] == old_r[b - 1]);
            }
        }
        v = v + 1;
    }
    r
}

/// What a rendered tab group keeps between frames.
pub struct TabRuntimeState {
    /// The tab the group shows.
    pub active_ix: usize,
    /// What the group last announced to its panels: the front panel's name and the number of
    /// tabs, so that it announces on change rather than every frame.
    pub notified_active: Option<(Option<String>, usize)>,
}

/// The value of an announcement.
pub open spec fn announcement_view(a: Option<(Option<String>, usize)>) -> Option<(Option<Seq<char>>, usize)> {
    match a {
        Some(x) => Some((name_view(x.0), x.1)),
        None => None,
    }
}

/// The value of a runtime state: its index and its last announcement.
pub open spec fn runtime_view(s: TabRuntimeState) -> (usize, Option<(Option<Seq<char>>, usize)>) {
    (s.active_ix, announcement_view(s.notified_active))
}

/// The tab shown at `ix` among `n`: `ix` clamped to the last tab, the first slot when there
/// are none.
pub open spec fn clamped(ix: usize, n: nat) -> usize {
    if n == 0 {
        0
    } else if ix < n {
        ix
    } else {
        (n - 1) as usize
    }
}

/// What a group showing tab `ix` of `names` announces: the front panel's name and the count.
pub open spec fn announcement_of(names: Seq<Seq<char>>, ix: usize) -> (Option<Seq<char>>, usize) {
    (if ix < names.len() { Some(names[ix as int]) } else { None }, names.len() as usize)
}

/// One frame of a tab group: a docked group adopts the dock's active index when it differs,
/// forgetting what it announced; it shows that tab clamped to the last one, and announces when
/// the announcement differs from the last. Gives the next state, the tab shown and whether it
/// announced.
pub open spec fn frame_next(
    v: (usize, Option<(Option<Seq<char>>, usize)>),
    docked: bool,
    active_ix: usize,
    names: Seq<Seq<char>>,
) -> ((usize, Option<(Option<Seq<char>>, usize)>), usize, bool) {
    let adopted = docked && v.0 != active_ix;
    let ix = if adopted { active_ix } else { v.0 };
    let last = if adopted { None } else { v.1 };
    let shown = clamped(ix, names.len());
    let announced = announcement_of(names, shown);
    ((ix, Some(announced)), shown, last != Some(announced))
}

/// Whether two optional names are equal.
fn same_name(a: &Option<String>, b: &Option<String>) -> (r: bool)
    ensures
        r == (name_view(*a) == name_view(*b)),
{
    match (a, b) {
        (Some(x), Some(y)) => str_eq(x.as_str(), y.as_str()),
        (None, None) => true,
        _ => false,
    }
}

/// The announcement of a group showing tab `ix` of `names`.
fn announcement(names: &Vec<String>, ix: usize) -> (r: (Option<String>, usize))
    ensures
        (name_view(r.0), r.1) == announcement_of(strings_view(names@), ix),
{
    let front = if ix < names.len() { Some(names[ix].clone()) } else { None };
    (front, names.len())
}

impl TabRuntimeState {
    /// The state of a group first shown at `active_ix`, which has announced nothing yet.
    pub fn new(active_ix: usize) -> (r: TabRuntimeState)
        ensures
            runtime_view(r) == (active_ix, None::<(Option<Seq<char>>, usize)>),
    {
        TabRuntimeState { active_ix, notified_active: None }
    }

    /// Run one frame of the group holding `names`, whose dock (when `docked`) shows tab
    /// `active_ix`. Returns the tab shown and whether its panels must be told again which one
    /// is in front: the shown one active, the others hidden.
    pub fn frame(&mut self, docked: bool, active_ix: usize, names: &Vec<String>) -> (r: (usize, bool))
        ensures
            (runtime_view(*final(self)), r.0, r.1) == frame_next(runtime_view(*old(self)), docked, active_ix, strings_view(names@)),
    {
        if docked && self.active_ix != active_ix {
            self.active_ix = active_ix;
            self.notified_active = None;
        }
        let shown = shown_tab(self.active_ix, names.len());
        let announced = announcement(names, shown);
        let due = match &self.notified_active {
            Some((name, count)) => !(same_name(name, &announced.0) && *count == announced.1),
            None => true,
        };
        if due {
            self.notified_active = Some(announced);
        }
        (shown, due)
    }

    /// The dock told the group's panels which one is in front, tab `active_ix` of `names`
    /// clamped to the last: the group remembers that tab and that announcement. Returns the tab.
    pub fn synced(&mut self, active_ix: usize, names: &Vec<String>) -> (r: usize)
        ensures
            r == clamped(active_ix, names@.len()),
            runtime_view(*final(self)) == (r, Some(announcement_of(strings_view(names@), r))),
    {
        let shown = shown_tab(active_ix, names.len());
        self.active_ix = shown;
        self.notified_active = Some(announcement(names, shown));
        shown
    }

    /// The group was hidden with its `count` tabs: it keeps tab `active_ix` clamped to the last
    /// and records an announcement with no front panel, so that it announces again once shown.
    pub fn mark_inactive(&mut self, active_ix: usize, count: usize)
        ensures
            runtime_view(*final(self)) == (clamped(active_ix, count as nat), Some((None::<Seq<char>>, count))),
    {
        self.active_ix = shown_tab(active_ix, count);
        self.notified_active = Some((None, count));
    }
}

/// A frame repeated with the same inputs announces nothing and changes nothing: the group
/// tells its panels which one is in front on change only, not every frame.
pub proof fn lemma_frame_announces_once(
    v: (usize, Option<(Option<Seq<char>>, usize)>),
    docked: bool,
    active_ix: usize,
    names: Seq<Seq<char>>,
)
    requires
        names.len() <= usize::MAX,
    ensures
        ({
            let (v1, shown1, _) = frame_next(v, docked, active_ix, names);
            frame_next(v1, docked, active_ix, names) == (v1, shown1, false)
        }),
{
}

/// After the dock synchronized a group to a tab it has, a docked frame at that tab announces
/// nothing: the panels were already told.
pub proof fn lemma_synced_frame_is_quiet(active_ix: usize, names: Seq<Seq<char>>)
    requires
        active_ix < names.len(),
        names.len() <= usize::MAX,
    ensures
        ({
            let v = (active_ix, Some(announcement_of(names, active_ix)));
            !frame_next(v, true, active_ix, names).2
        }),
{
}

/// A group hidden and shown again with tabs announces its front panel again.
pub proof fn lemma_reopened_group_announces(
    hidden_ix: usize,
    count: usize,
    docked: bool,
    active_ix: usize,
    names: Seq<Seq<char>>,
)
    requires
        names.len() > 0,
        names.len() <= usize::MAX,
    ensures
        frame_next((clamped(hidden_ix, count as nat), Some((None::<Seq<char>>, count))), docked, active_ix, names).2,
{
}


/// A group outside any dock keeps the tab it shows, whatever index it is built with: a frame
/// never changes its index, so a tab the user picked stays in front across re-renders, and
/// after one frame, further frames announce nothing.
pub proof fn lemma_undocked_group_keeps_its_tab(
    v: (usize, Option<(Option<Seq<char>>, usize)>),
    active_ix: usize,
    names: Seq<Seq<char>>,
)
    requires
        names.len() <= usize::MAX,
    ensures
        ({
            let (v1, shown1, _) = frame_next(v, false, active_ix, names);
            &&& v1.0 == v.0
            &&& shown1 == clamped(v.0, names.len())
            &&& frame_next(v1, false, active_ix, names) == (v1, shown1, false)
        }),
{
}

} // verus!
