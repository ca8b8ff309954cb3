//! Which panels a dock reports active: the visible topology's front panels, or only the
//! zoomed panel while a zoom is shown.
//!
//! The dock decides; the host tells each panel, in the planned order, whether it is active.

use vstd::prelude::*;

use super::area::{found_in_layout, layout_of, side_view, DockArea, DockSide, LayoutValue, SideValue};
use super::item::{lemma_view_items, panels_of, view_items, DockItem, DockNode, DockPanel};
use super::named::shown_index;

verus! {

/// One activation report: a panel and whether it is active.
pub type ActivationCall = (DockPanel, bool);

/// The reports of a tab strip: its shown panel active, every other panel inactive.
pub open spec fn strip_calls(items: Seq<DockPanel>, active_ix: nat) -> Seq<ActivationCall> {
    Seq::new(items.len(), |i: int| (items[i], i == shown_index(items.len(), active_ix)))
}

/// The reports of a visible node, in traversal order: the shown panel of each tab group,
/// every single panel and every tile are active.
pub open spec fn visible_calls(node: DockNode) -> Seq<ActivationCall>
    decreases node,
{
    match node {
        DockNode::Empty => Seq::empty(),
        DockNode::Panel(p) => seq![(p, true)],
        DockNode::Tabs { items, active_ix } => strip_calls(items, active_ix),
        DockNode::Tiles { items, .. } => items.map_values(|p: DockPanel| (p, true)),
        DockNode::Split { children, .. } => visible_calls_all(children),
    }
}

/// The reports of a sequence of visible nodes, in order.
pub open spec fn visible_calls_all(cs: Seq<DockNode>) -> Seq<ActivationCall>
    decreases cs,
{
    if cs.len() == 0 {
        Seq::empty()
    } else {
        visible_calls_all(cs.drop_last()) + visible_calls(cs.last())
    }
}

/// The reports of a hidden node: every panel occurrence inactive, in traversal order.
pub open spec fn hidden_calls(node: DockNode) -> Seq<ActivationCall> {
    panels_of(node).map_values(|p: DockPanel| (p, false))
}

/// The reports of a side dock without zoom: visible when open, hidden when closed.
pub open spec fn side_calls(s: Option<SideValue>) -> Seq<ActivationCall> {
    match s {
        Some(v) => if v.2 { visible_calls(v.0) } else { hidden_calls(v.0) },
        None => Seq::empty(),
    }
}

/// The reports of a side dock behind a zoom: hidden.
pub open spec fn side_hidden_calls(s: Option<SideValue>) -> Seq<ActivationCall> {
    match s {
        Some(v) => hidden_calls(v.0),
        None => Seq::empty(),
    }
}

/// The activation reports of a layout with the given zoom, in order.
///
/// While the zoomed name finds a panel, every root is hidden and that panel alone is
/// reported active, last. Otherwise the center is visible and each side is visible when open.
pub open spec fn activation_calls(l: LayoutValue, zoomed: Option<Seq<char>>) -> Seq<ActivationCall> {
    let normal = visible_calls(l.0) + side_calls(l.1) + side_calls(l.2) + side_calls(l.3);
    match zoomed {
        Some(n) => match found_in_layout(l, n) {
            Some(zp) => hidden_calls(l.0) + side_hidden_calls(l.1) + side_hidden_calls(l.2)
                + side_hidden_calls(l.3) + seq![(zp, true)],
            None => normal,
        },
        None => normal,
    }
}

impl DockItem {
    /// Append the activation reports of this node, shown, to `out`.
    pub fn push_visible_calls(&self, out: &mut Vec<ActivationCall>)
        ensures
            final(out)@ == old(out)@ + visible_calls(self@),
        decreases self,
    {
        match self {
            DockItem::Empty => {
                assert(old(out)@ + Seq::<ActivationCall>::empty() == old(out)@);
            },
            DockItem::Panel(p) => {
                out.push((p.share(), true));
                assert(old(out)@.push((*p, true)) == old(out)@ + seq![(*p, true)]);
            },
            DockItem::Tabs { items, active_ix } => {
                let n = items.len();
                let ghost start = out@;
                let shown = if *active_ix < n { *active_ix } else if n > 0 { n - 1 } else { 0 };
                let mut i: usize = 0;
                while i < n
                    invariant
                        i <= n,
                        n == items@.len(),
                        n > 0 ==> shown == shown_index(n as nat, *active_ix as nat),
                        out@ == start + strip_calls(items@, *active_ix as nat).take(i as int),
                    decreases n - i,
                {
                    out.push((items[i].share(), i == shown));
                    assert(strip_calls(items@, *active_ix as nat).take(i + 1)
                        == strip_calls(items@, *active_ix as nat).take(i as int).push((items@[i as int], i == shown)));
                    i = i + 1;
                }
                assert(strip_calls(items@, *active_ix as nat).take(n as int) == strip_calls(items@, *active_ix as nat));
            },
            DockItem::Tiles { items, .. } => {
                let ghost start = out@;
                let mut i: usize = 0;
                while i < items.len()
                    invariant
                        i <= items.len(),
                        out@ == start + items@.take(i as int).map_values(|p: DockPanel| (p, true)),
                    decreases items.len() - i,
                {
                    out.push((items[i].share(), true));
                    assert(items@.take(i + 1).map_values(|p: DockPanel| (p, true))
                        == items@.take(i as int).map_values(|p: DockPanel| (p, true)).push((items@[i as int], true)));
                    i = i + 1;
                }
                assert(items@.take(items.len() as int) == items@);
            },
            DockItem::Split { items, .. } => {
                let ghost start = out@;
                let ghost v = view_items(items@);
                proof { lemma_view_items(items@); }
                let mut i: usize = 0;
                #[verifier::loop_isolation(false)]
                while i < items.len()
                    invariant
                        i <= items.len(),
                        out@ == start + visible_calls_all(v.take(i as int)),
                    decreases items.len() - i,
                {
                    proof {
                        assert(v.take(i + 1).drop_last() == v.take(i as int));
                        assert(v.take(i + 1).last() == v[i as int]);
                    }
                    items[i].push_visible_calls(out);
                    proof {
                        assert(start + visible_calls_all(v.take(i as int)) + visible_calls(v[i as int])
                            == start + (visible_calls_all(v.take(i as int)) + visible_calls(v[i as int])));
                    }
                    i = i + 1;
                }
                assert(v.take(items.len() as int) == v);
            },
        }
    }

    /// Append the activation reports of this node, hidden, to `out`.
    pub fn push_hidden_calls(&self, out: &mut Vec<ActivationCall>)
        ensures
            final(out)@ == old(out)@ + hidden_calls(self@),
    {
        let mut panels: Vec<DockPanel> = Vec::new();
        self.collect_occurrences(&mut panels);
        assert(panels@ == panels_of(self@));
        let ghost start = out@;
        let mut i: usize = 0;
        while i < panels.len()
            invariant
                i <= panels.len(),
                out@ == start + panels@.take(i as int).map_values(|p: DockPanel| (p, false)),
            decreases panels.len() - i,
        {
            out.push((panels[i].share(), false));
            assert(panels@.take(i + 1).map_values(|p: DockPanel| (p, false))
                == panels@.take(i as int).map_values(|p: DockPanel| (p, false)).push((panels@[i as int], false)));
            i = i + 1;
        }
        assert(panels@.take(panels.len() as int) == panels@);
    }
}

/// Append the reports of a side dock without zoom to `out`.
fn push_side_calls(side: &Option<DockSide>, out: &mut Vec<ActivationCall>)
    ensures
        final(out)@ == old(out)@ + side_calls(side_view(*side)),
{
    match side {
        Some(s) => {
            if s.open {
                s.item.push_visible_calls(out);
            } else {
                s.item.push_hidden_calls(out);
            }
        },
        None => {
            assert(old(out)@ + Seq::<ActivationCall>::empty() == old(out)@);
        },
    }
}

/// Append the reports of a side dock behind a zoom to `out`.
fn push_side_hidden_calls(side: &Option<DockSide>, out: &mut Vec<ActivationCall>)
    ensures
        final(out)@ == old(out)@ + side_hidden_calls(side_view(*side)),
{
    match side {
        Some(s) => s.item.push_hidden_calls(out),
        None => {
            assert(old(out)@ + Seq::<ActivationCall>::empty() == old(out)@);
        },
    }
}

impl DockArea {
    /// The activation each panel occurrence is told, in order (see [`activation_calls`]).
    ///
    /// The host applies them after every layout change, so that exactly the panels the user
    /// can see report themselves active.
    pub fn activation_plan(&self) -> (r: Vec<ActivationCall>)
        ensures
            r@ == activation_calls(layout_of(*self), match self.zoomed_panel {
                Some(z) => Some(z@),
                None => None,
            }),
    {
        let mut out: Vec<ActivationCall> = Vec::new();
        let zoomed = match &self.zoomed_panel {
            Some(name) => self.find_panel_named(name.as_str()),
            None => None,
        };
        match zoomed {
            Some(zp) => {
                self.center.push_hidden_calls(&mut out);
                push_side_hidden_calls(&self.left, &mut out);
                push_side_hidden_calls(&self.right, &mut out);
                push_side_hidden_calls(&self.bottom, &mut out);
                let ghost before = out@;
                out.push((zp, true));
                assert(before.push((zp, true)) == before + seq![(zp, true)]);
            },
            None => {
                self.center.push_visible_calls(&mut out);
                push_side_calls(&self.left, &mut out);
                push_side_calls(&self.right, &mut out);
                push_side_calls(&self.bottom, &mut out);
            },
        }
        assert(Seq::<ActivationCall>::empty() + visible_calls(self.center@) == visible_calls(self.center@));
        assert(Seq::<ActivationCall>::empty() + hidden_calls(self.center@) == hidden_calls(self.center@));
        out
    }
}

/// While a zoom is shown, the zoomed panel is the only one reported active: every report
/// but the last is inactive, and the last activates the zoomed panel.
pub proof fn lemma_zoom_reports_one_active(l: LayoutValue, n: Seq<char>)
    requires
        found_in_layout(l, n) is Some,
    ensures
        activation_calls(l, Some(n)).last() == (found_in_layout(l, n).unwrap(), true),
        forall|i: int| 0 <= i < activation_calls(l, Some(n)).len() - 1 ==> !(#[trigger] activation_calls(l, Some(n))[i]).1,
{
    let calls = activation_calls(l, Some(n));
    let hidden = hidden_calls(l.0) + side_hidden_calls(l.1) + side_hidden_calls(l.2) + side_hidden_calls(l.3);
    assert(calls == hidden + seq![(found_in_layout(l, n).unwrap(), true)]);
    assert forall|i: int| 0 <= i < hidden.len() implies !(#[trigger] hidden[i]).1 by {
        let a = hidden_calls(l.0);
        let b = side_hidden_calls(l.1);
        let c = side_hidden_calls(l.2);
        let d = side_hidden_calls(l.3);
        if i < a.len() {
            assert(hidden[i] == a[i]);
        } else if i < a.len() + b.len() {
            assert(hidden[i] == b[i - a.len()]);
        } else if i < a.len() + b.len() + c.len() {
            assert(hidden[i] == c[i - a.len() - b.len()]);
        } else {
            assert(hidden[i] == d[i - a.len() - b.len() - c.len()]);
        }
    }
    assert forall|i: int| 0 <= i < calls.len() - 1 implies !(#[trigger] calls[i]).1 by {
        assert(calls[i] == hidden[i]);
    }
}

} // verus!
