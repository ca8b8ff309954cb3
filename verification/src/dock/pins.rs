//! Pinned leaders: what it is for pinned panels to lead a tree or a topology, that enforcing
//! them makes them lead, that enforcing them where they lead changes nothing, that
//! normalization keeps them leading, and that a pinned dock's own topology applied back onto
//! it is a fixed point.

use vstd::prelude::*;

use super::area::{DockRoot, LayoutValue, SideValue};
use super::item::{
    enforced, enforced_all, has_id, holds_pinned, panels_of, panels_of_all, pin_rank,
    pinned_follows_unpinned, pinned_order, ranked_upto, DockNode, DockPanel, TileMeta,
};
use super::laws::{distinct_nonempty, lemma_distinct_prefix, lemma_first_id_index};
use super::named::{tab_entries, tab_entries_all};
use super::reapply::{
    ids_distinct, lemma_layout_names_are_panel_names, lemma_topo_names_are_panel_names, side_sized,
};
use super::resolve::{panel_names, topo_of, topo_of_all};
use super::restore::{identity_names, lemma_identity_names_within, lemma_within_concat};
use super::shared::{
    has_duplicates, occurrences_of, resolved_layout, topo_layout_of, DOCK_MIN_BOTTOM_SIZE_BITS,
    DOCK_MIN_SIDE_SIZE_BITS,
};
use super::topology::{
    layout_names, normalized_children, normalized_layout, normalized_node, normalized_side,
    same_topology, side_names, topo_names, topo_names_all, TopoLayout, TopoSide,
};

verus! {

/// Whether the panels of a strip come in increasing pin rank.
pub open spec fn rank_sorted(items: Seq<DockPanel>, pins: Seq<String>) -> bool {
    forall|i: int, j: int| 0 <= i < j < items.len() ==> pin_rank(#[trigger] items[i].name@, pins) <= pin_rank(#[trigger] items[j].name@, pins)
}

/// Whether pinned panels already lead a tree: every tab group comes in increasing pin rank,
/// and at every horizontal split no child holding a pinned panel follows one that holds none.
pub open spec fn pins_lead(node: DockNode, pins: Seq<String>) -> bool
    decreases node,
{
    match node {
        DockNode::Tabs { items, .. } => rank_sorted(items, pins),
        DockNode::Split { horizontal, children, .. } => (horizontal ==> !pinned_follows_unpinned(children, pins))
            && forall|i: int| 0 <= i < children.len() ==> pins_lead(#[trigger] children[i], pins),
        _ => true,
    }
}

/// Whether pinned panels already lead a side.
pub open spec fn side_pins_lead(s: Option<SideValue>, pins: Seq<String>) -> bool {
    match s {
        Some(v) => pins_lead(v.0, pins),
        None => true,
    }
}

proof fn lemma_rank_filters(items: Seq<DockPanel>, pins: Seq<String>, k: nat)
    requires
        rank_sorted(items, pins),
    ensures
        items.filter(|p: DockPanel| pin_rank(p.name@, pins) < k) + items.filter(|p: DockPanel| pin_rank(p.name@, pins) == k)
            == items.filter(|p: DockPanel| pin_rank(p.name@, pins) < k + 1),
    decreases items.len(),
{
    let lt = |p: DockPanel| pin_rank(p.name@, pins) < k;
    let eq = |p: DockPanel| pin_rank(p.name@, pins) == k;
    let le = |p: DockPanel| pin_rank(p.name@, pins) < k + 1;
    reveal_with_fuel(Seq::filter, 1);
    if items.len() > 0 {
        let init = items.drop_last();
        let x = items.last();
        assert(rank_sorted(init, pins)) by {
            assert forall|i: int, j: int| 0 <= i < j < init.len() implies pin_rank(#[trigger] init[i].name@, pins) <= pin_rank(#[trigger] init[j].name@, pins) by {
                assert(init[i] == items[i] && init[j] == items[j]);
            }
        }
        lemma_rank_filters(init, pins, k);
        if pin_rank(x.name@, pins) < k {
            // nothing of rank k is left
            assert forall|i: int| 0 <= i < init.len() implies !eq(#[trigger] init[i]) by {
                assert(init[i] == items[i]);
                assert(items[items.len() - 1] == x);
            }
            lemma_filter_nothing(init, eq);
            assert(init.filter(lt) + init.filter(eq) == init.filter(lt));
            assert(items.filter(lt) == init.filter(lt).push(x));
            assert(items.filter(eq) == init.filter(eq));
            assert(items.filter(le) == init.filter(le).push(x));
        } else if pin_rank(x.name@, pins) == k {
            assert(items.filter(lt) == init.filter(lt));
            assert(items.filter(eq) == init.filter(eq).push(x));
            assert(items.filter(le) == init.filter(le).push(x));
            assert(init.filter(lt) + init.filter(eq).push(x) == (init.filter(lt) + init.filter(eq)).push(x));
        } else {
            assert(items.filter(lt) == init.filter(lt));
            assert(items.filter(eq) == init.filter(eq));
            assert(items.filter(le) == init.filter(le));
        }
    } else {
        assert(items.filter(lt) + items.filter(eq) == items.filter(le));
    }
}

proof fn lemma_ranked_sorted(items: Seq<DockPanel>, pins: Seq<String>, k: nat)
    requires
        rank_sorted(items, pins),
    ensures
        ranked_upto(items, pins, k) == items.filter(|p: DockPanel| pin_rank(p.name@, pins) < k),
    decreases k,
{
    if k == 0 {
        let lt = |p: DockPanel| pin_rank(p.name@, pins) < 0;
        assert(items.filter(lt).len() == 0) by {
            if items.filter(lt).len() > 0 {
                items.lemma_filter_pred(lt, 0);
            }
        }
    } else {
        let k1 = (k - 1) as nat;
        lemma_ranked_sorted(items, pins, k1);
        lemma_rank_filters(items, pins, k1);
        assert(k1 + 1 == k);
    }
}

/// A strip in increasing pin rank keeps its order.
proof fn lemma_pinned_order_sorted(items: Seq<DockPanel>, pins: Seq<String>)
    requires
        rank_sorted(items, pins),
    ensures
        pinned_order(items, pins) == items,
{
    let k = (pins.len() + 1) as nat;
    lemma_ranked_sorted(items, pins, k);
    let lt = |p: DockPanel| pin_rank(p.name@, pins) < k;
    assert forall|p: DockPanel| #[trigger] lt(p) by {
        super::laws::lemma_pin_rank_bound(p.name@, pins);
    }
    super::reapply::lemma_filter_everything(items, lt);
}

proof fn lemma_filter_nothing(items: Seq<DockPanel>, f: spec_fn(DockPanel) -> bool)
    requires
        forall|i: int| 0 <= i < items.len() ==> !f(#[trigger] items[i]),
    ensures
        items.filter(f).len() == 0,
    decreases items.len(),
{
    reveal_with_fuel(Seq::filter, 1);
    if items.len() > 0 {
        let init = items.drop_last();
        assert forall|i: int| 0 <= i < init.len() implies !f(#[trigger] init[i]) by {
            assert(init[i] == items[i]);
        }
        lemma_filter_nothing(init, f);
        assert(!f(items[items.len() - 1]));
    }
}

/// Whether some panel of `s` carries a pinned name depends on the names alone.
proof fn lemma_any_named_by_names(a: Seq<DockPanel>, b: Seq<DockPanel>, pins: Seq<String>)
    requires
        panel_names(a) == panel_names(b),
    ensures
        super::item::any_named(a, pins) == super::item::any_named(b, pins),
{
    assert(a.len() == panel_names(a).len() && b.len() == panel_names(b).len());
    if super::item::any_named(a, pins) {
        let k = choose|k: int| 0 <= k < a.len() && super::item::in_names(#[trigger] a[k].name@, pins);
        assert(panel_names(a)[k] == a[k].name@ && panel_names(b)[k] == b[k].name@);
        assert(super::item::in_names(b[k].name@, pins));
    }
    if super::item::any_named(b, pins) {
        let k = choose|k: int| 0 <= k < b.len() && super::item::in_names(#[trigger] b[k].name@, pins);
        assert(panel_names(a)[k] == a[k].name@ && panel_names(b)[k] == b[k].name@);
        assert(super::item::in_names(a[k].name@, pins));
    }
}

proof fn lemma_topo_of_all_index(cs: Seq<DockNode>)
    ensures
        topo_of_all(cs).len() == cs.len(),
        forall|i: int| 0 <= i < cs.len() ==> #[trigger] topo_of_all(cs)[i] == topo_of(cs[i]),
    decreases cs.len(),
{
    if cs.len() > 0 {
        lemma_topo_of_all_index(cs.drop_last());
        assert forall|i: int| 0 <= i < cs.len() implies #[trigger] topo_of_all(cs)[i] == topo_of(cs[i]) by {
            if i < cs.len() - 1 {
                assert(cs.drop_last()[i] == cs[i]);
            }
        }
    }
}

/// Whether pinned panels lead a tree depends on its topology alone.
pub(crate) proof fn lemma_pins_lead_by_topo(x: DockNode, y: DockNode, pins: Seq<String>)
    requires
        topo_of(x) == topo_of(y),
    ensures
        pins_lead(x, pins) == pins_lead(y, pins),
    decreases x,
{
    match x {
        DockNode::Tabs { items: xi, .. } => {
            let yi = y->Tabs_items;
            assert(xi.len() == panel_names(xi).len() && yi.len() == panel_names(yi).len());
            assert forall|i: int| 0 <= i < xi.len() implies #[trigger] xi[i].name@ == yi[i].name@ by {
                assert(panel_names(xi)[i] == xi[i].name@ && panel_names(yi)[i] == yi[i].name@);
            }
            if rank_sorted(xi, pins) {
                assert forall|i: int, j: int| 0 <= i < j < yi.len() implies pin_rank(#[trigger] yi[i].name@, pins) <= pin_rank(#[trigger] yi[j].name@, pins) by {
                    assert(xi[i].name@ == yi[i].name@ && xi[j].name@ == yi[j].name@);
                }
            }
            if rank_sorted(yi, pins) {
                assert forall|i: int, j: int| 0 <= i < j < xi.len() implies pin_rank(#[trigger] xi[i].name@, pins) <= pin_rank(#[trigger] xi[j].name@, pins) by {
                    assert(xi[i].name@ == yi[i].name@ && xi[j].name@ == yi[j].name@);
                }
            }
        },
        DockNode::Split { horizontal, children: xc, .. } => {
            let yc = y->children;
            lemma_topo_of_all_index(xc);
            lemma_topo_of_all_index(yc);
            assert forall|i: int| 0 <= i < xc.len() implies pins_lead(#[trigger] xc[i], pins) == pins_lead(yc[i], pins) by {
                assert(topo_of_all(xc)[i] == topo_of_all(yc)[i]);
                lemma_pins_lead_by_topo(xc[i], yc[i], pins);
            }
            assert forall|i: int| 0 <= i < xc.len() implies holds_pinned(#[trigger] xc[i], pins) == holds_pinned(yc[i], pins) by {
                assert(topo_of_all(xc)[i] == topo_of_all(yc)[i]);
                lemma_topo_names_are_panel_names(xc[i]);
                lemma_topo_names_are_panel_names(yc[i]);
                lemma_any_named_by_names(panels_of(xc[i]), panels_of(yc[i]), pins);
            }
            if pinned_follows_unpinned(xc, pins) {
                let (i, j) = choose|i: int, j: int| 0 <= i < j < xc.len() && !holds_pinned(#[trigger] xc[i], pins) && holds_pinned(#[trigger] xc[j], pins);
                assert(!holds_pinned(yc[i], pins) && holds_pinned(yc[j], pins));
            }
            if pinned_follows_unpinned(yc, pins) {
                let (i, j) = choose|i: int, j: int| 0 <= i < j < yc.len() && !holds_pinned(#[trigger] yc[i], pins) && holds_pinned(#[trigger] yc[j], pins);
                assert(!holds_pinned(xc[i], pins) && holds_pinned(xc[j], pins));
            }
            if forall|i: int| 0 <= i < yc.len() ==> pins_lead(#[trigger] yc[i], pins) {
                assert forall|i: int| 0 <= i < xc.len() implies pins_lead(#[trigger] xc[i], pins) by {
                    assert(pins_lead(yc[i], pins));
                }
            }
            if forall|i: int| 0 <= i < xc.len() ==> pins_lead(#[trigger] xc[i], pins) {
                assert forall|i: int| 0 <= i < yc.len() implies pins_lead(#[trigger] yc[i], pins) by {
                    assert(pins_lead(xc[i], pins));
                }
            }
        },
        _ => {},
    }
}

/// Enforcing pinned leaders on a tree where they already lead keeps its topology and its
/// panels, and, where panels sharing an identity share a name, its active-tab entries.
#[verifier::spinoff_prover]
#[verifier::rlimit(40)]
pub proof fn lemma_enforce_led(x: DockNode, pins: Seq<String>, root: DockRoot, path: Seq<usize>)
    requires
        pins_lead(x, pins),
    ensures
        topo_of(enforced(x, pins).0) == topo_of(x),
        panels_of(enforced(x, pins).0) == panels_of(x),
        identity_names(panels_of(x)) ==> tab_entries(enforced(x, pins).0, root, path) == tab_entries(x, root, path),
    decreases x,
{
    match x {
        DockNode::Tabs { items, active_ix } => {
            lemma_pinned_order_sorted(items, pins);
            if active_ix < items.len() {
                assert(has_id(items, items[active_ix as int].id));
                lemma_first_id_index(items, items[active_ix as int].id);
            }
        },
        DockNode::Split { horizontal, children, sizes } => {
            lemma_enforce_led_all(children, pins, root, path);
            let cs = enforced_all(children, pins).0;
            assert(!(horizontal && pinned_follows_unpinned(cs, pins))) by {
                if horizontal && pinned_follows_unpinned(cs, pins) {
                    let (i, j) = choose|i: int, j: int| 0 <= i < j < cs.len() && !holds_pinned(#[trigger] cs[i], pins) && holds_pinned(#[trigger] cs[j], pins);
                    assert(panels_of(cs[i]) == panels_of(children[i]) && panels_of(cs[j]) == panels_of(children[j]));
                    assert(!holds_pinned(children[i], pins) && holds_pinned(children[j], pins));
                }
            }
        },
        _ => {},
    }
}

proof fn lemma_enforce_led_all(cs: Seq<DockNode>, pins: Seq<String>, root: DockRoot, path: Seq<usize>)
    requires
        forall|i: int| 0 <= i < cs.len() ==> pins_lead(#[trigger] cs[i], pins),
    ensures
        enforced_all(cs, pins).0.len() == cs.len(),
        topo_of_all(enforced_all(cs, pins).0) == topo_of_all(cs),
        panels_of_all(enforced_all(cs, pins).0) == panels_of_all(cs),
        forall|i: int| 0 <= i < cs.len() ==> panels_of(#[trigger] enforced_all(cs, pins).0[i]) == panels_of(cs[i]),
        identity_names(panels_of_all(cs)) ==> tab_entries_all(enforced_all(cs, pins).0, root, path) == tab_entries_all(cs, root, path),
    decreases cs,
{
    if cs.len() > 0 {
        let n = cs.len() - 1;
        let init = cs.drop_last();
        let cp = path.push(n as usize);
        assert forall|i: int| 0 <= i < init.len() implies pins_lead(#[trigger] init[i], pins) by {
            assert(init[i] == cs[i]);
        }
        assert(pins_lead(cs[n as int], pins));
        lemma_enforce_led_all(init, pins, root, path);
        lemma_enforce_led(cs.last(), pins, root, cp);
        let c0 = enforced_all(init, pins).0;
        let y = enforced(cs.last(), pins).0;
        let c = enforced_all(cs, pins).0;
        assert(c == c0.push(y));
        assert(c.drop_last() == c0);
        assert(c.last() == y);
        assert(topo_of_all(c) == topo_of_all(c0).push(topo_of(y)));
        assert(panels_of_all(c) == panels_of_all(c0) + panels_of(y));
        assert forall|i: int| 0 <= i < cs.len() implies panels_of(#[trigger] c[i]) == panels_of(cs[i]) by {
            if i < n {
                assert(c[i] == c0[i] && cs[i] == init[i]);
            }
        }
        if identity_names(panels_of_all(cs)) {
            lemma_within_concat(panels_of_all(init), panels_of(cs.last()));
            lemma_identity_names_within(panels_of_all(init), panels_of_all(cs));
            lemma_identity_names_within(panels_of(cs.last()), panels_of_all(cs));
            assert(tab_entries_all(c, root, path) == tab_entries_all(c0, root, path) + tab_entries(y, root, cp));
        }
    }
}

/// A dock that meets the conditions of [`super::reapply::lemma_own_topology_is_a_fixed_point`]
/// but pins panels that already lead it also installs exactly its own topology when that
/// topology is applied back onto it.
pub proof fn lemma_own_topology_is_a_fixed_point_with_pins(l: LayoutValue, pins: Seq<String>, d: spec_fn(usize) -> TileMeta)
    requires
        super::reapply::ids_distinct(occurrences_of(l)),
        super::reapply::names_distinct(occurrences_of(l)),
        forall|k: int| 0 <= k < occurrences_of(l).len() ==> (#[trigger] occurrences_of(l)[k]).name@.len() > 0,
        side_sized(l.1, DOCK_MIN_SIDE_SIZE_BITS),
        side_sized(l.2, DOCK_MIN_SIDE_SIZE_BITS),
        side_sized(l.3, DOCK_MIN_BOTTOM_SIZE_BITS),
        pins_lead(l.0, pins),
        side_pins_lead(l.1, pins),
        side_pins_lead(l.2, pins),
        side_pins_lead(l.3, pins),
    ensures
        ({
            let n = normalized_layout(topo_layout_of(l), d);
            let next = super::shared::applied_layout(l, n, Seq::empty(), pins, d);
            &&& topo_layout_of(next) == n
            &&& !has_duplicates(l)
            &&& same_topology(normalized_layout(topo_layout_of(l), d), normalized_layout(topo_layout_of(next), d), d)
        }),
{
    let n = normalized_layout(topo_layout_of(l), d);
    let none = Seq::<String>::empty();
    super::reapply::lemma_own_topology_is_a_fixed_point(l, d);
    let r = resolved_layout(l, n, Seq::empty(), true, d);
    let names = super::shared::layout_active_names(l);
    let a = (
        super::shared::with_active_from(r.0, names),
        super::shared::side_with_active(r.1, names),
        super::shared::side_with_active(r.2, names),
        super::shared::side_with_active(r.3, names),
    );
    assert(super::shared::applied_layout(l, n, Seq::empty(), none, d) == super::area::layout_enforced(a, none).0);
    assert(super::shared::applied_layout(l, n, Seq::empty(), pins, d) == super::area::layout_enforced(a, pins).0);
    // pinned panels lead the normalized topology
    let t = topo_layout_of(l);
    lemma_layout_names_are_panel_names(l);
    let occ = occurrences_of(l);
    assert(distinct_nonempty(layout_names(t))) by {
        assert forall|i: int| 0 <= i < layout_names(t).len() implies (#[trigger] layout_names(t)[i]).len() > 0 by {
            assert(panel_names(occ)[i] == occ[i].name@);
        }
        assert forall|i: int, j: int| 0 <= i < j < layout_names(t).len() implies #[trigger] layout_names(t)[i] != #[trigger] layout_names(t)[j] by {
            assert(panel_names(occ)[i] == occ[i].name@ && panel_names(occ)[j] == occ[j].name@);
        }
    }
    lemma_pins_lead_topo(l.0, pins);
    if let Some(v) = l.1 { lemma_pins_lead_topo(v.0, pins); }
    if let Some(v) = l.2 { lemma_pins_lead_topo(v.0, pins); }
    if let Some(v) = l.3 { lemma_pins_lead_topo(v.0, pins); }
    lemma_normalized_layout_pins(t, pins, d);
    // the center
    super::reapply::lemma_topo_unpinned(a.0);
    lemma_pins_lead_topo(a.0, pins);
    lemma_enforce_led(a.0, pins, DockRoot::Center, Seq::empty());
    // the sides
    if let Some(v) = a.1 {
        super::reapply::lemma_topo_unpinned(v.0);
        lemma_pins_lead_topo(v.0, pins);
        lemma_enforce_led(v.0, pins, DockRoot::Left, Seq::empty());
    }
    if let Some(v) = a.2 {
        super::reapply::lemma_topo_unpinned(v.0);
        lemma_pins_lead_topo(v.0, pins);
        lemma_enforce_led(v.0, pins, DockRoot::Right, Seq::empty());
    }
    if let Some(v) = a.3 {
        super::reapply::lemma_topo_unpinned(v.0);
        lemma_pins_lead_topo(v.0, pins);
        lemma_enforce_led(v.0, pins, DockRoot::Bottom, Seq::empty());
    }
    let next = super::shared::applied_layout(l, n, Seq::empty(), pins, d);
    assert(topo_layout_of(next) == n);
}

/// Whether a strip of names comes in increasing pin rank.
pub open spec fn names_rank_sorted(u: Seq<Seq<char>>, pins: Seq<String>) -> bool {
    forall|i: int, j: int| 0 <= i < j < u.len() ==> pin_rank(#[trigger] u[i], pins) <= pin_rank(#[trigger] u[j], pins)
}

/// Whether a topology node names a pinned panel.
pub open spec fn topo_holds_pinned(t: super::topology::TopoNode, pins: Seq<String>) -> bool {
    exists|k: int| 0 <= k < topo_names(t).len() && super::item::in_names(#[trigger] topo_names(t)[k], pins)
}

/// Whether a child naming a pinned panel follows one naming none.
pub open spec fn topo_pinned_follows(items: Seq<super::topology::TopoNode>, pins: Seq<String>) -> bool {
    exists|i: int, j: int|
        0 <= i < j < items.len() && !topo_holds_pinned(#[trigger] items[i], pins) && topo_holds_pinned(#[trigger] items[j], pins)
}

/// Whether pinned panels lead a topology node, as [`pins_lead`] says of a tree.
pub open spec fn topo_pins_lead(t: super::topology::TopoNode, pins: Seq<String>) -> bool
    decreases t,
{
    match t {
        super::topology::TopoNode::Tabs(u) => names_rank_sorted(u, pins),
        super::topology::TopoNode::Split(h, items, _) => (h ==> !topo_pinned_follows(items, pins))
            && forall|i: int| 0 <= i < items.len() ==> topo_pins_lead(#[trigger] items[i], pins),
        _ => true,
    }
}

/// Whether pinned panels lead a topology side.
pub open spec fn topo_side_pins_lead(s: Option<TopoSide>, pins: Seq<String>) -> bool {
    match s {
        Some(v) => topo_pins_lead(v.item, pins),
        None => true,
    }
}

proof fn lemma_holds_pinned_topo(c: DockNode, pins: Seq<String>)
    ensures
        holds_pinned(c, pins) == topo_holds_pinned(topo_of(c), pins),
{
    lemma_topo_names_are_panel_names(c);
    let ps = panels_of(c);
    let u = topo_names(topo_of(c));
    assert(u.len() == ps.len());
    if holds_pinned(c, pins) {
        let k = choose|k: int| 0 <= k < ps.len() && super::item::in_names(#[trigger] ps[k].name@, pins);
        assert(u[k] == ps[k].name@);
    }
    if topo_holds_pinned(topo_of(c), pins) {
        let k = choose|k: int| 0 <= k < u.len() && super::item::in_names(#[trigger] u[k], pins);
        assert(u[k] == ps[k].name@);
    }
}

proof fn lemma_rank_sorted_names(items: Seq<DockPanel>, pins: Seq<String>)
    ensures
        rank_sorted(items, pins) == names_rank_sorted(panel_names(items), pins),
{
    let u = panel_names(items);
    assert(u.len() == items.len());
    if rank_sorted(items, pins) {
        assert forall|i: int, j: int| 0 <= i < j < u.len() implies pin_rank(#[trigger] u[i], pins) <= pin_rank(#[trigger] u[j], pins) by {
            assert(u[i] == items[i].name@ && u[j] == items[j].name@);
        }
    }
    if names_rank_sorted(u, pins) {
        assert forall|i: int, j: int| 0 <= i < j < items.len() implies pin_rank(#[trigger] items[i].name@, pins) <= pin_rank(#[trigger] items[j].name@, pins) by {
            assert(u[i] == items[i].name@ && u[j] == items[j].name@);
        }
    }
}

/// Pinned panels lead a tree exactly when they lead its topology.
#[verifier::spinoff_prover]
pub(crate) proof fn lemma_pins_lead_topo(x: DockNode, pins: Seq<String>)
    ensures
        pins_lead(x, pins) ==> topo_pins_lead(topo_of(x), pins),
        topo_pins_lead(topo_of(x), pins) ==> pins_lead(x, pins),
    decreases x,
{
    match x {
        DockNode::Tabs { items, .. } => {
            lemma_rank_sorted_names(items, pins);
            assert(topo_of(x) == super::topology::TopoNode::Tabs(panel_names(items)));
            if pins_lead(x, pins) {
                assert(rank_sorted(items, pins));
                assert(names_rank_sorted(panel_names(items), pins));
                assert(topo_pins_lead(topo_of(x), pins));
            }
            if topo_pins_lead(topo_of(x), pins) {
                assert(names_rank_sorted(panel_names(items), pins));
                assert(rank_sorted(items, pins));
                assert(pins_lead(x, pins));
            }
        },
        DockNode::Split { horizontal, children, .. } => {
            let t = topo_of_all(children);
            lemma_topo_of_all_index(children);
            assert forall|i: int| 0 <= i < children.len() implies pins_lead(#[trigger] children[i], pins) == topo_pins_lead(t[i], pins) by {
                lemma_pins_lead_topo(children[i], pins);
                assert(t[i] == topo_of(children[i]));
            }
            assert forall|i: int| 0 <= i < children.len() implies holds_pinned(#[trigger] children[i], pins) == topo_holds_pinned(t[i], pins) by {
                lemma_holds_pinned_topo(children[i], pins);
            }
            if pinned_follows_unpinned(children, pins) {
                let (i, j) = choose|i: int, j: int| 0 <= i < j < children.len() && !holds_pinned(#[trigger] children[i], pins) && holds_pinned(#[trigger] children[j], pins);
                assert(!topo_holds_pinned(t[i], pins) && topo_holds_pinned(t[j], pins));
            }
            if topo_pinned_follows(t, pins) {
                let (i, j) = choose|i: int, j: int| 0 <= i < j < t.len() && !topo_holds_pinned(#[trigger] t[i], pins) && topo_holds_pinned(#[trigger] t[j], pins);
                assert(!holds_pinned(children[i], pins) && holds_pinned(children[j], pins));
            }
            if forall|i: int| 0 <= i < t.len() ==> topo_pins_lead(#[trigger] t[i], pins) {
                assert forall|i: int| 0 <= i < children.len() implies pins_lead(#[trigger] children[i], pins) by {
                    assert(topo_pins_lead(t[i], pins));
                }
            }
            if forall|i: int| 0 <= i < children.len() ==> pins_lead(#[trigger] children[i], pins) {
                assert forall|i: int| 0 <= i < t.len() implies topo_pins_lead(#[trigger] t[i], pins) by {
                    assert(pins_lead(children[i], pins));
                }
            }
            let tx = topo_of(x);
            assert(tx is Split);
            assert(tx->Split_0 == horizontal);
            assert(tx->Split_1 == t);
            if topo_pins_lead(tx, pins) {
                assert(topo_pins_lead(tx, pins) == ((tx->Split_0 ==> !topo_pinned_follows(tx->Split_1, pins))
                    && forall|i: int| 0 <= i < tx->Split_1.len() ==> topo_pins_lead(#[trigger] tx->Split_1[i], pins)));
                assert(forall|i: int| 0 <= i < t.len() ==> topo_pins_lead(#[trigger] t[i], pins));
                assert(pins_lead(x, pins));
            }
            if pins_lead(x, pins) {
                assert(topo_pins_lead(tx, pins));
            }
        },
        _ => {
            assert(pins_lead(x, pins));
        },
    }
}

pub(crate) proof fn lemma_unique_tiles_names(names: Seq<Seq<char>>, metas: Seq<TileMeta>, seen: Seq<Seq<char>>, d: spec_fn(usize) -> TileMeta)
    ensures
        super::topology::unique_tiles(names, metas, seen, d).0 == super::topology::first_unique_names(names, seen).0,
        super::topology::unique_tiles(names, metas, seen, d).2 == super::topology::first_unique_names(names, seen).1,
    decreases names.len(),
{
    if names.len() > 0 {
        lemma_unique_tiles_names(names.drop_last(), metas, seen, d);
    }
}

/// Two strips with the same names name a pinned panel alike.
proof fn lemma_holds_pinned_same_names(a: super::topology::TopoNode, b: super::topology::TopoNode, pins: Seq<String>)
    requires
        topo_names(a) == topo_names(b),
    ensures
        topo_holds_pinned(a, pins) == topo_holds_pinned(b, pins),
{
    if topo_holds_pinned(a, pins) {
        let k = choose|k: int| 0 <= k < topo_names(a).len() && super::item::in_names(#[trigger] topo_names(a)[k], pins);
        assert(super::item::in_names(topo_names(b)[k], pins));
    }
    if topo_holds_pinned(b, pins) {
        let k = choose|k: int| 0 <= k < topo_names(b).len() && super::item::in_names(#[trigger] topo_names(b)[k], pins);
        assert(super::item::in_names(topo_names(a)[k], pins));
    }
}

/// Normalizing a node whose names are new, distinct and non-empty keeps every name, and
/// keeps pinned panels leading where they led.
proof fn lemma_normalized_keeps(t: super::topology::TopoNode, seen: Seq<Seq<char>>, pins: Seq<String>, d: spec_fn(usize) -> TileMeta)
    requires
        distinct_nonempty(seen + topo_names(t)),
    ensures
        topo_names(normalized_node(t, seen, d).0) == topo_names(t),
        topo_pins_lead(t, pins) ==> topo_pins_lead(normalized_node(t, seen, d).0, pins),
    decreases t,
{
    match t {
        super::topology::TopoNode::Panel(n) => {
            assert((seen + topo_names(t))[seen.len() as int] == n);
            assert(!seen.contains(n)) by {
                if seen.contains(n) {
                    let k = choose|k: int| 0 <= k < seen.len() && seen[k] == n;
                    assert((seen + topo_names(t))[k] == seen[k]);
                }
            }
        },
        super::topology::TopoNode::Tabs(names) => {
            super::laws::lemma_unique_names_fixed(names, seen);
            if names.len() == 1 {
                assert(seq![names[0]] == names);
            }
        },
        super::topology::TopoNode::Tiles(names, metas) => {
            lemma_unique_tiles_names(names, metas, seen, d);
            super::laws::lemma_unique_names_fixed(names, seen);
            if names.len() == 1 {
                assert(seq![names[0]] == names);
            }
        },
        super::topology::TopoNode::Split(h, items, sizes) => {
            lemma_normalized_children_keeps(items, sizes, seen, pins, d);
            let kc = normalized_children(items, sizes, seen, d).0;
            if kc.len() == 1 {
                super::laws::lemma_topo_names_all_single(kc[0]);
                assert(kc == seq![kc[0]]);
            }
        },
        _ => {},
    }
}

proof fn lemma_normalized_children_keeps(
    items: Seq<super::topology::TopoNode>,
    sizes: Seq<Option<u32>>,
    seen: Seq<Seq<char>>,
    pins: Seq<String>,
    d: spec_fn(usize) -> TileMeta,
)
    requires
        distinct_nonempty(seen + topo_names_all(items)),
    ensures
        topo_names_all(normalized_children(items, sizes, seen, d).0) == topo_names_all(items),
        (forall|k: int| 0 <= k < items.len() ==> topo_pins_lead(#[trigger] items[k], pins))
            ==> (forall|j: int| 0 <= j < normalized_children(items, sizes, seen, d).0.len()
                ==> topo_pins_lead(#[trigger] normalized_children(items, sizes, seen, d).0[j], pins)),
        forall|j: int| 0 <= j < normalized_children(items, sizes, seen, d).0.len()
            && !topo_holds_pinned(#[trigger] normalized_children(items, sizes, seen, d).0[j], pins)
            ==> exists|k: int| 0 <= k < items.len() && !topo_holds_pinned(#[trigger] items[k], pins),
        !topo_pinned_follows(items, pins) ==> !topo_pinned_follows(normalized_children(items, sizes, seen, d).0, pins),
    decreases items,
{
    if items.len() > 0 {
        let init = items.drop_last();
        let last = items.last();
        let n = items.len() - 1;
        assert(seen + topo_names_all(items) == (seen + topo_names_all(init)) + topo_names(last));
        lemma_distinct_prefix(seen + topo_names_all(init), topo_names(last));
        lemma_normalized_children_keeps(init, sizes, seen, pins, d);
        super::laws::lemma_normalized_children_names(init, sizes, seen, d);
        let (kc0, ks0, s) = normalized_children(init, sizes, seen, d);
        assert(s == seen + topo_names_all(init));
        lemma_normalized_keeps(last, s, pins, d);
        let (c, s2) = normalized_node(last, s, d);
        let kc = normalized_children(items, sizes, seen, d).0;
        lemma_holds_pinned_same_names(c, last, pins);
        assert forall|k: int| 0 <= k < init.len() implies #[trigger] init[k] == items[k] by {}
        if forall|k: int| 0 <= k < items.len() ==> topo_pins_lead(#[trigger] items[k], pins) {
            assert forall|k: int| 0 <= k < init.len() implies topo_pins_lead(#[trigger] init[k], pins) by {
                assert(init[k] == items[k]);
            }
            assert(topo_pins_lead(items[n], pins));
        }
        if !topo_pinned_follows(items, pins) {
            assert(!topo_pinned_follows(init, pins)) by {
                if topo_pinned_follows(init, pins) {
                    let (i, j) = choose|i: int, j: int| 0 <= i < j < init.len() && !topo_holds_pinned(#[trigger] init[i], pins) && topo_holds_pinned(#[trigger] init[j], pins);
                    assert(init[i] == items[i] && init[j] == items[j]);
                }
            }
        }
        if c is Empty {
            assert(topo_names(last) == Seq::<Seq<char>>::empty());
            assert(kc == kc0);
            assert(topo_names_all(items) == topo_names_all(init) + topo_names(last));
            assert(topo_names_all(init) + Seq::<Seq<char>>::empty() == topo_names_all(init));
            assert forall|j: int| 0 <= j < kc.len() && !topo_holds_pinned(#[trigger] kc[j], pins)
                implies exists|k: int| 0 <= k < items.len() && !topo_holds_pinned(#[trigger] items[k], pins) by {
                let k = choose|k: int| 0 <= k < init.len() && !topo_holds_pinned(#[trigger] init[k], pins);
                assert(init[k] == items[k]);
            }
        } else {
            assert(kc == kc0.push(c));
            assert(kc.drop_last() == kc0);
            assert(topo_names_all(kc) == topo_names_all(kc0) + topo_names(c));
            assert forall|j: int| 0 <= j < kc.len() && !topo_holds_pinned(#[trigger] kc[j], pins)
                implies exists|k: int| 0 <= k < items.len() && !topo_holds_pinned(#[trigger] items[k], pins) by {
                if j < kc0.len() {
                    assert(kc[j] == kc0[j]);
                    let k = choose|k: int| 0 <= k < init.len() && !topo_holds_pinned(#[trigger] init[k], pins);
                    assert(init[k] == items[k]);
                } else {
                    assert(kc[j] == c);
                    assert(!topo_holds_pinned(items[n], pins));
                }
            }
            if forall|k: int| 0 <= k < items.len() ==> topo_pins_lead(#[trigger] items[k], pins) {
                assert forall|j: int| 0 <= j < kc.len() implies topo_pins_lead(#[trigger] kc[j], pins) by {
                    if j < kc0.len() {
                        assert(kc[j] == kc0[j]);
                    }
                }
            }
            if !topo_pinned_follows(items, pins) {
                if topo_pinned_follows(kc, pins) {
                    let (i, j) = choose|i: int, j: int| 0 <= i < j < kc.len() && !topo_holds_pinned(#[trigger] kc[i], pins) && topo_holds_pinned(#[trigger] kc[j], pins);
                    assert(kc[i] == kc0[i]);
                    if j < kc0.len() {
                        assert(kc[j] == kc0[j]);
                        assert(topo_pinned_follows(kc0, pins));
                    } else {
                        assert(kc[j] == c);
                        let k = choose|k: int| 0 <= k < init.len() && !topo_holds_pinned(#[trigger] init[k], pins);
                        assert(init[k] == items[k]);
                        assert(topo_holds_pinned(items[n], pins));
                        assert(topo_pinned_follows(items, pins));
                    }
                }
            }
        }
    }
}

/// Normalizing a topology whose names are distinct and non-empty keeps pinned panels leading
/// wherever they led.
pub(crate) proof fn lemma_normalized_layout_pins(t: TopoLayout, pins: Seq<String>, d: spec_fn(usize) -> TileMeta)
    requires
        distinct_nonempty(layout_names(t)),
        topo_pins_lead(t.center, pins),
        topo_side_pins_lead(t.left, pins),
        topo_side_pins_lead(t.right, pins),
        topo_side_pins_lead(t.bottom, pins),
    ensures
        topo_pins_lead(normalized_layout(t, d).center, pins),
        topo_side_pins_lead(normalized_layout(t, d).left, pins),
        topo_side_pins_lead(normalized_layout(t, d).right, pins),
        topo_side_pins_lead(normalized_layout(t, d).bottom, pins),
{
    let e = Seq::<Seq<char>>::empty();
    let na = topo_names(t.center);
    let nb = side_names(t.left);
    let nc = side_names(t.right);
    let nd = side_names(t.bottom);
    assert(layout_names(t) == na + nb + nc + nd);
    lemma_distinct_prefix(na + nb + nc, nd);
    lemma_distinct_prefix(na + nb, nc);
    lemma_distinct_prefix(na, nb);
    assert(e + na == na);
    lemma_normalized_keeps(t.center, e, pins, d);
    super::laws::lemma_normalized_node_names(t.center, e, d);
    let (c0, s1) = normalized_node(t.center, e, d);
    assert(s1 == na);
    lemma_side_keeps(t.left, s1, pins, d);
    super::laws::lemma_normalized_side_names(t.left, s1, d);
    let (l0, s2) = normalized_side(t.left, s1, d);
    assert(s2 == na + nb);
    lemma_side_keeps(t.right, s2, pins, d);
    super::laws::lemma_normalized_side_names(t.right, s2, d);
    let (r0, s3) = normalized_side(t.right, s2, d);
    assert(s3 == na + nb + nc);
    lemma_side_keeps(t.bottom, s3, pins, d);
}

proof fn lemma_side_keeps(side: Option<TopoSide>, seen: Seq<Seq<char>>, pins: Seq<String>, d: spec_fn(usize) -> TileMeta)
    requires
        distinct_nonempty(seen + side_names(side)),
        topo_side_pins_lead(side, pins),
    ensures
        side_names(normalized_side(side, seen, d).0) == side_names(side),
        topo_side_pins_lead(normalized_side(side, seen, d).0, pins),
{
    if let Some(v) = side {
        lemma_normalized_keeps(v.item, seen, pins, d);
    }
}

/// Every element a filter keeps is an element of the sequence.
proof fn lemma_filter_within<A>(s: Seq<A>, f: spec_fn(A) -> bool)
    ensures
        forall|i: int| 0 <= i < s.filter(f).len() ==> s.contains(#[trigger] s.filter(f)[i]),
    decreases s.len(),
{
    reveal_with_fuel(Seq::filter, 1);
    if s.len() > 0 {
        let init = s.drop_last();
        lemma_filter_within(init, f);
        assert forall|i: int| 0 <= i < s.filter(f).len() implies s.contains(#[trigger] s.filter(f)[i]) by {
            if i < init.filter(f).len() {
                assert(s.filter(f)[i] == init.filter(f)[i]);
                let k = init.index_of(init.filter(f)[i]);
                assert(s[k] == init[k]);
            } else {
                assert(s.filter(f)[i] == s.last());
                assert(s[s.len() - 1] == s.last());
            }
        }
    }
}

/// Panels ranked up to `k` come in increasing pin rank, each below `k`.
proof fn lemma_ranked_upto_sorted(items: Seq<DockPanel>, pins: Seq<String>, k: nat)
    ensures
        rank_sorted(ranked_upto(items, pins, k), pins),
        forall|i: int| 0 <= i < ranked_upto(items, pins, k).len() ==> pin_rank(#[trigger] ranked_upto(items, pins, k)[i].name@, pins) < k,
    decreases k,
{
    if k > 0 {
        let k1 = (k - 1) as nat;
        lemma_ranked_upto_sorted(items, pins, k1);
        let r = ranked_upto(items, pins, k1);
        let f = |p: DockPanel| pin_rank(p.name@, pins) == k1;
        let g = items.filter(f);
        assert forall|i: int| 0 <= i < g.len() implies pin_rank(#[trigger] g[i].name@, pins) == k1 by {
            items.lemma_filter_pred(f, i);
        }
        let a = r + g;
        assert(ranked_upto(items, pins, k) == a);
        assert forall|i: int, j: int| 0 <= i < j < a.len() implies pin_rank(#[trigger] a[i].name@, pins) <= pin_rank(#[trigger] a[j].name@, pins) by {
            if j < r.len() {
                assert(a[i] == r[i] && a[j] == r[j]);
            } else if i < r.len() {
                assert(a[i] == r[i] && a[j] == g[j - r.len()]);
            } else {
                assert(a[i] == g[i - r.len()] && a[j] == g[j - r.len()]);
            }
        }
        assert forall|i: int| 0 <= i < a.len() implies pin_rank(#[trigger] a[i].name@, pins) < k by {
            if i < r.len() {
                assert(a[i] == r[i]);
            } else {
                assert(a[i] == g[i - r.len()]);
            }
        }
    }
}

proof fn lemma_enforced_all_index(cs: Seq<DockNode>, pins: Seq<String>)
    ensures
        enforced_all(cs, pins).0.len() == cs.len(),
        forall|i: int| 0 <= i < cs.len() ==> #[trigger] enforced_all(cs, pins).0[i] == enforced(cs[i], pins).0,
    decreases cs.len(),
{
    if cs.len() > 0 {
        lemma_enforced_all_index(cs.drop_last(), pins);
        assert forall|i: int| 0 <= i < cs.len() implies #[trigger] enforced_all(cs, pins).0[i] == enforced(cs[i], pins).0 by {
            if i < cs.len() - 1 {
                assert(cs.drop_last()[i] == cs[i]);
            }
        }
    }
}

/// Enforcing pinned leaders makes them lead: every tab group comes in pin order, and no
/// horizontal split has a child holding a pinned panel after one holding none.
pub proof fn lemma_enforced_pins_lead(x: DockNode, pins: Seq<String>)
    ensures
        pins_lead(enforced(x, pins).0, pins),
    decreases x,
{
    match x {
        DockNode::Tabs { items, active_ix } => {
            lemma_ranked_upto_sorted(items, pins, (pins.len() + 1) as nat);
        },
        DockNode::Split { horizontal, children, sizes } => {
            lemma_enforced_all_index(children, pins);
            let cs = enforced_all(children, pins).0;
            assert forall|i: int| 0 <= i < cs.len() implies pins_lead(#[trigger] cs[i], pins) by {
                lemma_enforced_pins_lead(children[i], pins);
            }
            if horizontal && pinned_follows_unpinned(cs, pins) {
                let ws = super::item::with_sizes(cs, sizes);
                let fa = |s: (DockNode, Option<u32>)| holds_pinned(s.0, pins);
                let fb = |s: (DockNode, Option<u32>)| !holds_pinned(s.0, pins);
                let a = ws.filter(fa);
                let b = ws.filter(fb);
                let slots = super::item::lead_pinned(ws, pins);
                assert(slots == a + b);
                let kids = slots.map_values(|s: (DockNode, Option<u32>)| s.0);
                lemma_filter_within(ws, fa);
                lemma_filter_within(ws, fb);
                assert forall|m: int| 0 <= m < kids.len() implies pins_lead(#[trigger] kids[m], pins) by {
                    let sl = slots[m];
                    if m < a.len() {
                        assert(sl == a[m]);
                        assert(ws.contains(a[m]));
                    } else {
                        assert(sl == b[m - a.len()]);
                        assert(ws.contains(b[m - a.len()]));
                    }
                    let q = ws.index_of(sl);
                    assert(ws[q].0 == cs[q]);
                }
                assert forall|m: int| 0 <= m < a.len() implies holds_pinned(#[trigger] a[m].0, pins) by {
                    ws.lemma_filter_pred(fa, m);
                }
                assert forall|m: int| 0 <= m < b.len() implies !holds_pinned(#[trigger] b[m].0, pins) by {
                    ws.lemma_filter_pred(fb, m);
                }
                assert(!pinned_follows_unpinned(kids, pins)) by {
                    if pinned_follows_unpinned(kids, pins) {
                        let (i, j) = choose|i: int, j: int| 0 <= i < j < kids.len() && !holds_pinned(#[trigger] kids[i], pins) && holds_pinned(#[trigger] kids[j], pins);
                        if i < a.len() {
                            assert(kids[i] == a[i].0);
                        } else {
                            assert(kids[i] == b[i - a.len()].0);
                            assert(kids[j] == b[j - a.len()].0);
                        }
                    }
                }
            }
        },
        _ => {},
    }
}

/// After pinned leaders are enforced across a layout, as setting new pinned names does, they
/// lead every root.
pub proof fn lemma_layout_enforced_pins_lead(l: LayoutValue, pins: Seq<String>)
    ensures
        pins_lead(super::area::layout_enforced(l, pins).0.0, pins),
        side_pins_lead(super::area::layout_enforced(l, pins).0.1, pins),
        side_pins_lead(super::area::layout_enforced(l, pins).0.2, pins),
        side_pins_lead(super::area::layout_enforced(l, pins).0.3, pins),
{
    lemma_enforced_pins_lead(l.0, pins);
    if let Some(v) = l.1 { lemma_enforced_pins_lead(v.0, pins); }
    if let Some(v) = l.2 { lemma_enforced_pins_lead(v.0, pins); }
    if let Some(v) = l.3 { lemma_enforced_pins_lead(v.0, pins); }
}

} // verus!
