//! Panel lifecycle calls that dock operations decide and the host makes, in order.
//!
//! Dock operations that add, remove or zoom panels, or replace the whole layout, record the
//! calls they decide in [`super::area::DockArea::panel_calls`]; the host drains them and makes
//! each call on the live panel with that identity.

use vstd::prelude::*;

use super::area::{found_in_layout, layout_of, DockArea, LayoutValue};
use super::item::{has_id, DockPanel};

verus! {

/// One lifecycle call on a live panel.
#[derive(Debug)]
pub enum PanelCall {
    /// Tell the panel whether it is zoomed.
    SetZoomed { panel: DockPanel, zoomed: bool },
    /// Tell the panel whether it is active.
    SetActive { panel: DockPanel, active: bool },
    /// The panel left the dock.
    Removed { panel: DockPanel },
    /// The panel joined the dock.
    AddedTo { panel: DockPanel },
}

/// For each panel of `prev`, in order, whose identity `next` does not hold: it is told it is
/// inactive, then that it was removed.
pub open spec fn dropped_calls(prev: Seq<DockPanel>, next: Seq<DockPanel>) -> Seq<PanelCall>
    decreases prev.len(),
{
    if prev.len() == 0 {
        Seq::empty()
    } else {
        let rest = dropped_calls(prev.drop_last(), next);
        let p = prev.last();
        if has_id(next, p.id) {
            rest
        } else {
            rest.push(PanelCall::SetActive { panel: p, active: false }).push(PanelCall::Removed { panel: p })
        }
    }
}

/// For each panel of `next`, in order, whose identity `prev` does not hold: it is told that it
/// joined the dock.
pub open spec fn added_calls(next: Seq<DockPanel>, prev: Seq<DockPanel>) -> Seq<PanelCall>
    decreases next.len(),
{
    if next.len() == 0 {
        Seq::empty()
    } else {
        let rest = added_calls(next.drop_last(), prev);
        let p = next.last();
        if has_id(prev, p.id) {
            rest
        } else {
            rest.push(PanelCall::AddedTo { panel: p })
        }
    }
}

/// Whether two zoomed panels are present and the same live identity.
pub open spec fn same_identity(a: Option<DockPanel>, b: Option<DockPanel>) -> bool {
    match (a, b) {
        (Some(x), Some(y)) => x.id == y.id,
        _ => false,
    }
}

/// The calls of replacing a layout whose distinct panels are `prev`, zoomed on `prev_zoomed`,
/// by one whose distinct panels are `next`, zoomed on `next_zoomed`.
///
/// A changed zoom is first closed on the old panel; every dropped panel is told it is
/// inactive and then removed, each once; every new panel is told it joined; a changed zoom
/// is opened on the new panel last.
pub open spec fn replacement_calls(
    prev: Seq<DockPanel>,
    next: Seq<DockPanel>,
    prev_zoomed: Option<DockPanel>,
    next_zoomed: Option<DockPanel>,
) -> Seq<PanelCall> {
    let same = same_identity(prev_zoomed, next_zoomed);
    let unzoom = match prev_zoomed {
        Some(p) => if same { Seq::empty() } else { seq![PanelCall::SetZoomed { panel: p, zoomed: false }] },
        None => Seq::empty(),
    };
    let zoom = match next_zoomed {
        Some(p) => if same { Seq::empty() } else { seq![PanelCall::SetZoomed { panel: p, zoomed: true }] },
        None => Seq::empty(),
    };
    unzoom + dropped_calls(prev, next) + added_calls(next, prev) + zoom
}

/// The calls of taking the distinct panels `removed` out of the dock: when `unzoom`, the
/// first is unzoomed beforehand; then each is told it is inactive and then removed, once.
pub open spec fn take_calls(removed: Seq<DockPanel>, unzoom: bool) -> Seq<PanelCall> {
    let first = if unzoom && removed.len() > 0 {
        seq![PanelCall::SetZoomed { panel: removed[0], zoomed: false }]
    } else {
        Seq::empty()
    };
    first + dropped_calls(removed, Seq::empty())
}

/// The live panel a layout zooms: the first panel carrying the zoomed name, if any.
pub open spec fn zoomed_panel_in(l: LayoutValue, zoomed: Option<String>) -> Option<DockPanel> {
    match zoomed {
        Some(n) => found_in_layout(l, n@),
        None => None,
    }
}

impl DockArea {
    /// The live panel this dock zooms, if its zoomed name is carried by a panel.
    pub fn zoomed_live_panel(&self) -> (r: Option<DockPanel>)
        ensures
            r == zoomed_panel_in(layout_of(*self), self.zoomed_panel),
    {
        match &self.zoomed_panel {
            Some(n) => self.find_panel_named(n.as_str()),
            None => None,
        }
    }
}

/// Each panel of `s`, in order, told that it joined the dock.
pub open spec fn added_each(s: Seq<DockPanel>) -> Seq<PanelCall>
    decreases s.len(),
{
    if s.len() == 0 {
        Seq::empty()
    } else {
        added_each(s.drop_last()).push(PanelCall::AddedTo { panel: s.last() })
    }
}

/// Each panel of `s`, in order, told that it was removed.
pub open spec fn removed_each(s: Seq<DockPanel>) -> Seq<PanelCall>
    decreases s.len(),
{
    if s.len() == 0 {
        Seq::empty()
    } else {
        removed_each(s.drop_last()).push(PanelCall::Removed { panel: s.last() })
    }
}

/// The calls of moving the zoom: the panel zoomed before, if any, is unzoomed, then the panel
/// zoomed after, if any, is zoomed.
pub open spec fn zoom_calls(before: Option<DockPanel>, after: Option<DockPanel>) -> Seq<PanelCall> {
    let off = match before {
        Some(p) => seq![PanelCall::SetZoomed { panel: p, zoomed: false }],
        None => Seq::empty(),
    };
    let on = match after {
        Some(p) => seq![PanelCall::SetZoomed { panel: p, zoomed: true }],
        None => Seq::empty(),
    };
    off + on
}

/// Record that each panel of `s` joined the dock.
pub(crate) fn push_added_each(calls: &mut Vec<PanelCall>, s: &Vec<DockPanel>)
    ensures
        final(calls)@ == old(calls)@ + added_each(s@),
{
    let ghost start = calls@;
    let mut i: usize = 0;
    assert(s@.take(0) =~= Seq::<DockPanel>::empty());
    assert(start + Seq::<PanelCall>::empty() =~= start);
    while i < s.len()
        invariant
            i <= s.len(),
            calls@ == start + added_each(s@.take(i as int)),
        decreases s.len() - i,
    {
        let ghost before = added_each(s@.take(i as int));
        assert(s@.take(i + 1).drop_last() =~= s@.take(i as int));
        assert(s@.take(i + 1).last() == s@[i as int]);
        calls.push(PanelCall::AddedTo { panel: s[i].share() });
        assert(calls@ =~= start + before.push(PanelCall::AddedTo { panel: s@[i as int] }));
        i = i + 1;
    }
    assert(s@.take(s.len() as int) =~= s@);
}

/// Record that each panel of `s` was removed.
pub(crate) fn push_removed_each(calls: &mut Vec<PanelCall>, s: &Vec<DockPanel>)
    ensures
        final(calls)@ == old(calls)@ + removed_each(s@),
{
    let ghost start = calls@;
    let mut i: usize = 0;
    assert(s@.take(0) =~= Seq::<DockPanel>::empty());
    assert(start + Seq::<PanelCall>::empty() =~= start);
    while i < s.len()
        invariant
            i <= s.len(),
            calls@ == start + removed_each(s@.take(i as int)),
        decreases s.len() - i,
    {
        let ghost before = removed_each(s@.take(i as int));
        assert(s@.take(i + 1).drop_last() =~= s@.take(i as int));
        assert(s@.take(i + 1).last() == s@[i as int]);
        calls.push(PanelCall::Removed { panel: s[i].share() });
        assert(calls@ =~= start + before.push(PanelCall::Removed { panel: s@[i as int] }));
        i = i + 1;
    }
    assert(s@.take(s.len() as int) =~= s@);
}

/// Record the calls of moving the zoom (see [`zoom_calls`]).
pub(crate) fn push_zoom_calls(calls: &mut Vec<PanelCall>, before: &Option<DockPanel>, after: &Option<DockPanel>)
    ensures
        final(calls)@ == old(calls)@ + zoom_calls(*before, *after),
{
    let ghost start = calls@;
    match before {
        Some(p) => calls.push(PanelCall::SetZoomed { panel: p.share(), zoomed: false }),
        None => {},
    }
    let ghost a = calls@;
    match after {
        Some(p) => calls.push(PanelCall::SetZoomed { panel: p.share(), zoomed: true }),
        None => {},
    }
    proof {
        let off = a.skip(start.len() as int);
        let on = calls@.skip(a.len() as int);
        assert(a =~= start + off);
        assert(calls@ =~= start + (off + on));
    }
}

/// Whether some panel of `s` has identity `id`.
fn holds_id(s: &Vec<DockPanel>, id: u64) -> (r: bool)
    ensures
        r == has_id(s@, id),
{
    let mut i: usize = 0;
    while i < s.len()
        invariant
            i <= s.len(),
            forall|k: int| 0 <= k < i ==> s@[k].id != id,
        decreases s.len() - i,
    {
        if s[i].id == id {
            assert(s@[i as int].id == id);
            return true;
        }
        i = i + 1;
    }
    false
}

/// Record the calls for the panels of `prev` that `next` drops.
fn push_dropped_calls(calls: &mut Vec<PanelCall>, prev: &Vec<DockPanel>, next: &Vec<DockPanel>)
    ensures
        final(calls)@ == old(calls)@ + dropped_calls(prev@, next@),
{
    let ghost start = calls@;
    let mut i: usize = 0;
    assert(prev@.take(0) =~= Seq::<DockPanel>::empty());
    assert(start + Seq::<PanelCall>::empty() =~= start);
    while i < prev.len()
        invariant
            i <= prev.len(),
            calls@ == start + dropped_calls(prev@.take(i as int), next@),
        decreases prev.len() - i,
    {
        let ghost before = dropped_calls(prev@.take(i as int), next@);
        assert(prev@.take(i + 1).drop_last() =~= prev@.take(i as int));
        assert(prev@.take(i + 1).last() == prev@[i as int]);
        let p = &prev[i];
        if !holds_id(next, p.id) {
            calls.push(PanelCall::SetActive { panel: p.share(), active: false });
            calls.push(PanelCall::Removed { panel: p.share() });
            assert(calls@ =~= start + before.push(PanelCall::SetActive { panel: prev@[i as int], active: false }).push(
                PanelCall::Removed { panel: prev@[i as int] },
            ));
        }
        i = i + 1;
    }
    assert(prev@.take(prev.len() as int) =~= prev@);
}

/// Record the calls for the panels of `next` that `prev` did not hold.
fn push_added_calls(calls: &mut Vec<PanelCall>, next: &Vec<DockPanel>, prev: &Vec<DockPanel>)
    ensures
        final(calls)@ == old(calls)@ + added_calls(next@, prev@),
{
    let ghost start = calls@;
    let mut i: usize = 0;
    assert(next@.take(0) =~= Seq::<DockPanel>::empty());
    assert(start + Seq::<PanelCall>::empty() =~= start);
    while i < next.len()
        invariant
            i <= next.len(),
            calls@ == start + added_calls(next@.take(i as int), prev@),
        decreases next.len() - i,
    {
        let ghost before = added_calls(next@.take(i as int), prev@);
        assert(next@.take(i + 1).drop_last() =~= next@.take(i as int));
        assert(next@.take(i + 1).last() == next@[i as int]);
        let p = &next[i];
        if !holds_id(prev, p.id) {
            calls.push(PanelCall::AddedTo { panel: p.share() });
            assert(calls@ =~= start + before.push(PanelCall::AddedTo { panel: next@[i as int] }));
        }
        i = i + 1;
    }
    assert(next@.take(next.len() as int) =~= next@);
}

/// Record the calls of replacing a layout (see [`replacement_calls`]).
pub(crate) fn push_replacement_calls(
    calls: &mut Vec<PanelCall>,
    prev: &Vec<DockPanel>,
    next: &Vec<DockPanel>,
    prev_zoomed: &Option<DockPanel>,
    next_zoomed: &Option<DockPanel>,
)
    ensures
        final(calls)@ == old(calls)@ + replacement_calls(prev@, next@, *prev_zoomed, *next_zoomed),
{
    let ghost start = calls@;
    let same = match (prev_zoomed, next_zoomed) {
        (Some(x), Some(y)) => x.id == y.id,
        _ => false,
    };
    if !same {
        match prev_zoomed {
            Some(p) => calls.push(PanelCall::SetZoomed { panel: p.share(), zoomed: false }),
            None => {},
        }
    }
    let ghost a = calls@;
    push_dropped_calls(calls, prev, next);
    push_added_calls(calls, next, prev);
    let ghost b = calls@;
    if !same {
        match next_zoomed {
            Some(p) => calls.push(PanelCall::SetZoomed { panel: p.share(), zoomed: true }),
            None => {},
        }
    }
    proof {
        let unzoom = a.skip(start.len() as int);
        assert(a =~= start + unzoom);
        assert(b =~= start + unzoom + dropped_calls(prev@, next@) + added_calls(next@, prev@));
        assert(calls@ =~= start + (unzoom + dropped_calls(prev@, next@) + added_calls(next@, prev@)
            + calls@.skip(b.len() as int)));
    }
}

/// Record the calls of taking the distinct panels `removed` out (see [`take_calls`]).
pub(crate) fn push_take_calls(calls: &mut Vec<PanelCall>, removed: &Vec<DockPanel>, unzoom: bool)
    ensures
        final(calls)@ == old(calls)@ + take_calls(removed@, unzoom),
{
    let ghost start = calls@;
    if unzoom && removed.len() > 0 {
        calls.push(PanelCall::SetZoomed { panel: removed[0].share(), zoomed: false });
    }
    let ghost a = calls@;
    let none: Vec<DockPanel> = Vec::new();
    push_dropped_calls(calls, removed, &none);
    proof {
        assert(none@ =~= Seq::<DockPanel>::empty());
        let first = a.skip(start.len() as int);
        assert(a =~= start + first);
        assert(calls@ =~= start + (first + dropped_calls(removed@, Seq::empty())));
    }
}

} // verus!
