//! Applying a dock's own name topology back onto it: the topology it installs is the one it
//! had, so the apply announces nothing.

use vstd::prelude::*;

use super::area::{side_tree, LayoutValue, SideValue};
use super::item::{
    add_unique, enforced, enforced_all, has_id, panels_of, panels_of_all, pinned_order,
    ranked_upto, DockNode, DockPanel, TileMeta,
};
use super::laws::{
    all_consumed, all_free, frame_outside, is_normal_side, lemma_distinct_prefix,
    lemma_distinct_suffix, lemma_free_index_at_most, lemma_normalized_is_fixed,
    lemma_normalized_is_normal, lemma_normalized_layout_cover, lemma_normalized_names_unique,
    lemma_normalized_side_normal, lemma_resolution_consumes, lemma_resolution_fidelity,
    pool_names_distinct, distinct_nonempty,
};
use super::resolve::{free_index, has_name, panel_names, resolved, resolver_pool, topo_of, topo_of_all, unused};
use super::shared::{
    applied_layout, has_duplicates, larger_bits, names_repeat, occurrences_of, resolved_layout,
    resolved_side, topo_layout_of, unique_of, with_active_from, with_active_from_all,
    DOCK_MIN_BOTTOM_SIZE_BITS, DOCK_MIN_SIDE_SIZE_BITS,
};
use super::topology::{
    is_positive_bits, layout_names, normalized_layout, normalized_node, normalized_side,
    same_topology, side_names, topo_names, topo_names_all, TopoLayout, TopoNode, TopoSide,
};

verus! {

/// Reactivating tab groups never changes the topology.
proof fn lemma_topo_with_active(node: DockNode, names: Seq<Seq<char>>)
    ensures
        topo_of(with_active_from(node, names)) == topo_of(node),
    decreases node,
{
    match node {
        DockNode::Split { horizontal, children, sizes } => {
            lemma_topo_with_active_all(children, names);
        },
        _ => {},
    }
}

proof fn lemma_topo_with_active_all(cs: Seq<DockNode>, names: Seq<Seq<char>>)
    ensures
        topo_of_all(with_active_from_all(cs, names)) == topo_of_all(cs),
        with_active_from_all(cs, names).len() == cs.len(),
    decreases cs,
{
    if cs.len() > 0 {
        lemma_topo_with_active_all(cs.drop_last(), names);
        lemma_topo_with_active(cs.last(), names);
        let w = with_active_from_all(cs, names);
        assert(w.drop_last() == with_active_from_all(cs.drop_last(), names));
    }
}

/// With no pinned names a strip keeps its order.
pub(crate) proof fn lemma_unpinned_order(items: Seq<DockPanel>)
    ensures
        pinned_order(items, Seq::empty()) == items,
{
    let f = |p: DockPanel| super::item::pin_rank(p.name@, Seq::<String>::empty()) == 0nat;
    assert(ranked_upto(items, Seq::empty(), 0) == Seq::<DockPanel>::empty());
    assert(ranked_upto(items, Seq::empty(), 1) == Seq::<DockPanel>::empty() + items.filter(f));
    lemma_filter_everything(items, f);
    assert(Seq::<DockPanel>::empty() + items == items);
}

pub(crate) proof fn lemma_filter_everything(items: Seq<DockPanel>, f: spec_fn(DockPanel) -> bool)
    requires
        forall|p: DockPanel| #[trigger] f(p),
    ensures
        items.filter(f) == items,
    decreases items.len(),
{
    reveal_with_fuel(Seq::filter, 1);
    if items.len() > 0 {
        lemma_filter_everything(items.drop_last(), f);
        assert(items.drop_last().push(items.last()) == items);
    }
}

/// With no pinned names, enforcement never changes the topology.
pub(crate) proof fn lemma_topo_unpinned(node: DockNode)
    ensures
        topo_of(enforced(node, Seq::empty()).0) == topo_of(node),
    decreases node,
{
    match node {
        DockNode::Tabs { items, active_ix } => {
            lemma_unpinned_order(items);
        },
        DockNode::Split { horizontal, children, sizes } => {
            lemma_topo_unpinned_all(children);
            let cs = enforced_all(children, Seq::empty()).0;
            assert(!super::item::pinned_follows_unpinned(cs, Seq::empty())) by {
                if super::item::pinned_follows_unpinned(cs, Seq::empty()) {
                    let (i, j) = choose|i: int, j: int|
                        0 <= i < j < cs.len() && !super::item::holds_pinned(#[trigger] cs[i], Seq::empty())
                            && super::item::holds_pinned(#[trigger] cs[j], Seq::empty());
                    let ps = panels_of(cs[j]);
                    let k = choose|k: int| 0 <= k < ps.len() && super::item::in_names(#[trigger] ps[k].name@, Seq::<String>::empty());
                }
            }
        },
        _ => {},
    }
}

proof fn lemma_topo_unpinned_all(cs: Seq<DockNode>)
    ensures
        topo_of_all(enforced_all(cs, Seq::empty()).0) == topo_of_all(cs),
        enforced_all(cs, Seq::empty()).0.len() == cs.len(),
    decreases cs,
{
    if cs.len() > 0 {
        lemma_topo_unpinned_all(cs.drop_last());
        lemma_topo_unpinned(cs.last());
        let e = enforced_all(cs, Seq::empty()).0;
        assert(e.drop_last() == enforced_all(cs.drop_last(), Seq::empty()).0);
    }
}

/// Whether no two panels of `s` share an identity.
pub open spec fn ids_distinct(s: Seq<DockPanel>) -> bool {
    forall|i: int, j: int| 0 <= i < j < s.len() ==> #[trigger] s[i].id != #[trigger] s[j].id
}

/// Whether no two panels of `s` share a name.
pub open spec fn names_distinct(s: Seq<DockPanel>) -> bool {
    forall|i: int, j: int| 0 <= i < j < s.len() ==> #[trigger] s[i].name@ != #[trigger] s[j].name@
}

/// Collecting distinct identities from panels that are all distinct keeps them all.
pub(crate) proof fn lemma_add_unique_all(acc: Seq<DockPanel>, s: Seq<DockPanel>)
    requires
        ids_distinct(acc + s),
    ensures
        add_unique(acc, s) == acc + s,
    decreases s.len(),
{
    if s.len() > 0 {
        let init = s.drop_last();
        assert(acc + s == (acc + init).push(s.last()));
        assert(ids_distinct(acc + init)) by {
            assert forall|i: int, j: int| 0 <= i < j < (acc + init).len() implies #[trigger] (acc + init)[i].id != #[trigger] (acc + init)[j].id by {
                assert((acc + init)[i] == (acc + s)[i] && (acc + init)[j] == (acc + s)[j]);
            }
        }
        lemma_add_unique_all(acc, init);
        assert(!has_id(acc + init, s.last().id)) by {
            if has_id(acc + init, s.last().id) {
                let k = choose|k: int| 0 <= k < (acc + init).len() && #[trigger] (acc + init)[k].id == s.last().id;
                assert((acc + s)[k] == (acc + init)[k]);
                assert((acc + s)[(acc + s).len() - 1] == s.last());
            }
        }
    }
}

/// A resolver pool drawn from panels with distinct names is those panels.
proof fn lemma_pool_all(ps: Seq<DockPanel>)
    requires
        names_distinct(ps),
    ensures
        resolver_pool(ps) == ps,
    decreases ps.len(),
{
    if ps.len() > 0 {
        let init = ps.drop_last();
        assert(names_distinct(init)) by {
            assert forall|i: int, j: int| 0 <= i < j < init.len() implies #[trigger] init[i].name@ != #[trigger] init[j].name@ by {
                assert(init[i] == ps[i] && init[j] == ps[j]);
            }
        }
        lemma_pool_all(init);
        assert(!has_name(init, ps.last().name@)) by {
            if has_name(init, ps.last().name@) {
                let k = choose|k: int| 0 <= k < init.len() && #[trigger] init[k].name@ == ps.last().name@;
                assert(ps[k] == init[k]);
            }
        }
        assert(init.push(ps.last()) == ps);
    }
}

/// The names of a node's topology are the names of its panels.
pub(crate) proof fn lemma_topo_names_are_panel_names(node: DockNode)
    ensures
        topo_names(topo_of(node)) == panel_names(panels_of(node)),
    decreases node,
{
    match node {
        DockNode::Empty => {
            assert(panel_names(Seq::<DockPanel>::empty()) == Seq::<Seq<char>>::empty());
        },
        DockNode::Panel(p) => {
            assert(panel_names(seq![p]) == seq![p.name@]);
        },
        DockNode::Split { children, .. } => {
            lemma_topo_names_are_panel_names_all(children);
        },
        _ => {},
    }
}

proof fn lemma_topo_names_are_panel_names_all(cs: Seq<DockNode>)
    ensures
        topo_names_all(topo_of_all(cs)) == panel_names(panels_of_all(cs)),
    decreases cs,
{
    if cs.len() == 0 {
        assert(panel_names(Seq::<DockPanel>::empty()) == Seq::<Seq<char>>::empty());
    } else {
        lemma_topo_names_are_panel_names_all(cs.drop_last());
        lemma_topo_names_are_panel_names(cs.last());
        let t = topo_of_all(cs);
        assert(t.drop_last() == topo_of_all(cs.drop_last()));
        assert(t.last() == topo_of(cs.last()));
        assert(panel_names(panels_of_all(cs.drop_last()) + panels_of(cs.last()))
            == panel_names(panels_of_all(cs.drop_last())) + panel_names(panels_of(cs.last())));
    }
}

/// The names of a layout's topology are the names of its panel occurrences.
pub(crate) proof fn lemma_layout_names_are_panel_names(l: LayoutValue)
    ensures
        layout_names(topo_layout_of(l)) == panel_names(occurrences_of(l)),
{
    lemma_topo_names_are_panel_names(l.0);
    lemma_topo_names_are_panel_names(side_tree(l.1));
    lemma_topo_names_are_panel_names(side_tree(l.2));
    lemma_topo_names_are_panel_names(side_tree(l.3));
    let a = panels_of(l.0);
    let b = panels_of(side_tree(l.1));
    let c = panels_of(side_tree(l.2));
    let d = panels_of(side_tree(l.3));
    assert(panel_names(Seq::<DockPanel>::empty()) == Seq::<Seq<char>>::empty());
    assert(panel_names(a + b + c + d) == panel_names(a) + panel_names(b) + panel_names(c) + panel_names(d));
}

/// Every panel of the pool is marked: nothing is left unused.
proof fn lemma_unused_none(pool: Seq<DockPanel>, m: Seq<bool>)
    requires
        m.len() >= pool.len(),
        forall|k: int| 0 <= k < pool.len() ==> #[trigger] m[k],
    ensures
        unused(pool, m) == Seq::<DockPanel>::empty(),
    decreases pool.len(),
{
    if pool.len() > 0 {
        lemma_unused_none(pool.drop_last(), m);
        assert(m[pool.len() - 1]);
    }
}

/// Whether no name of `a` is a name of `b`.
pub open spec fn names_apart(a: Seq<Seq<char>>, b: Seq<Seq<char>>) -> bool {
    forall|x: Seq<char>| a.contains(x) ==> !#[trigger] b.contains(x)
}

pub(crate) proof fn lemma_apart(a: Seq<Seq<char>>, b: Seq<Seq<char>>)
    requires
        distinct_nonempty(a + b),
    ensures
        names_apart(a, b),
        names_apart(b, a),
{
    lemma_distinct_suffix(a, b);
    assert forall|x: Seq<char>| a.contains(x) implies !#[trigger] b.contains(x) by {
        if b.contains(x) {
            let i = choose|i: int| 0 <= i < a.len() && a[i] == x;
            let j = choose|j: int| 0 <= j < b.len() && b[j] == x;
            assert(a[i] != b[j]);
        }
    }
    assert forall|x: Seq<char>| b.contains(x) implies !#[trigger] a.contains(x) by {
        if a.contains(x) {
            let i = choose|i: int| 0 <= i < a.len() && a[i] == x;
            let j = choose|j: int| 0 <= j < b.len() && b[j] == x;
            assert(a[i] != b[j]);
        }
    }
}

/// Resolving one side of a normalized topology whose names are all free.
pub(crate) proof fn lemma_side_step(side: Option<TopoSide>, pool: Seq<DockPanel>, m: Seq<bool>, min: u32, d: spec_fn(usize) -> TileMeta)
    requires
        is_normal_side(side),
        distinct_nonempty(side_names(side)),
        all_free(pool, m, side_names(side)),
        m.len() == pool.len(),
        pool_names_distinct(pool),
    ensures
        resolved_side(side, pool, m, min, d).1.len() == pool.len(),
        frame_outside(pool, m, resolved_side(side, pool, m, min, d).1, side_names(side)),
        all_consumed(pool, resolved_side(side, pool, m, min, d).1, side_names(side)),
        match side {
            None => resolved_side(side, pool, m, min, d).0 is None,
            Some(s) => resolved_side(side, pool, m, min, d).0 matches Some(v)
                && topo_of(v.0) == s.item && v.1 == larger_bits(s.size, min) && v.2 == s.open,
        },
{
    match side {
        Some(s) => {
            lemma_resolution_fidelity(s.item, pool, m, d);
            lemma_resolution_consumes(s.item, pool, m, d);
            let n = resolved(s.item, pool, m, d).0;
            assert(!(n is Empty)) by {
                if n is Empty {
                    assert(topo_of(n) == TopoNode::Empty);
                }
            }
        },
        None => {},
    }
}

/// Whether a side has a finite positive size no smaller than `min`.
pub open spec fn side_sized(s: Option<SideValue>, min: u32) -> bool {
    match s {
        Some(v) => is_positive_bits(v.1) && v.1 >= min,
        None => true,
    }
}

/// A dock whose panel occurrences have distinct identities and distinct non-empty names,
/// whose side docks are at least their smallest sizes and which pins nothing installs, when
/// its own name topology is applied back onto it, a layout with exactly that topology.
///
/// So the apply finds the topology unchanged and, without duplicates, announces nothing.
pub proof fn lemma_own_topology_is_a_fixed_point(l: LayoutValue, d: spec_fn(usize) -> TileMeta)
    requires
        ids_distinct(occurrences_of(l)),
        names_distinct(occurrences_of(l)),
        forall|k: int| 0 <= k < occurrences_of(l).len() ==> (#[trigger] occurrences_of(l)[k]).name@.len() > 0,
        side_sized(l.1, DOCK_MIN_SIDE_SIZE_BITS),
        side_sized(l.2, DOCK_MIN_SIDE_SIZE_BITS),
        side_sized(l.3, DOCK_MIN_BOTTOM_SIZE_BITS),
    ensures
        ({
            let n = normalized_layout(topo_layout_of(l), d);
            let next = applied_layout(l, n, Seq::empty(), Seq::empty(), d);
            &&& topo_layout_of(next) == n
            &&& !has_duplicates(l)
            &&& same_topology(normalized_layout(topo_layout_of(l), d), normalized_layout(topo_layout_of(next), d), d)
        }),
{
    let t = topo_layout_of(l);
    let n = normalized_layout(t, d);
    let occ = occurrences_of(l);
    let e = Seq::<Seq<char>>::empty();
    // the pool is the occurrences themselves
    assert(Seq::<DockPanel>::empty() + occ == occ);
    lemma_add_unique_all(Seq::empty(), occ);
    assert(unique_of(l) == occ);
    assert(unique_of(l) + Seq::<DockPanel>::empty() == occ);
    lemma_pool_all(occ);
    let pool = occ;
    assert(pool_names_distinct(pool));
    assert(!has_duplicates(l)) by {
        if names_repeat(unique_of(l)) {
            let (i, j) = choose|i: int, j: int| 0 <= i < j < occ.len() && #[trigger] occ[i].name@ == #[trigger] occ[j].name@;
        }
    }
    // the normalized topology and its parts
    lemma_normalized_is_fixed(t, d);
    lemma_normalized_names_unique(t, d);
    lemma_normalized_layout_cover(t, d);
    lemma_layout_names_are_panel_names(l);
    let (c0, s1) = normalized_node(t.center, e, d);
    let (l0, s2) = normalized_side(t.left, s1, d);
    let (r0, s3) = normalized_side(t.right, s2, d);
    let (b0, s4) = normalized_side(t.bottom, s3, d);
    assert(n == TopoLayout { center: c0, left: l0, right: r0, bottom: b0 });
    lemma_normalized_is_normal(t.center, e, d);
    lemma_normalized_side_normal(t.left, s1, d);
    lemma_normalized_side_normal(t.right, s2, d);
    lemma_normalized_side_normal(t.bottom, s3, d);
    let na = topo_names(c0);
    let nb = side_names(l0);
    let nc = side_names(r0);
    let nd = side_names(b0);
    assert(layout_names(n) == na + nb + nc + nd);
    lemma_distinct_prefix(na + nb + nc, nd);
    lemma_distinct_prefix(na + nb, nc);
    lemma_distinct_prefix(na, nb);
    lemma_distinct_suffix(na, nb);
    lemma_distinct_suffix(na + nb, nc);
    lemma_distinct_suffix(na + nb + nc, nd);
    assert(distinct_nonempty(nb)) by { lemma_distinct_suffix(na, nb); }
    assert(distinct_nonempty(nc)) by { lemma_distinct_suffix(na + nb, nc); }
    assert(distinct_nonempty(nd)) by { lemma_distinct_suffix(na + nb + nc, nd); }
    lemma_apart(na, nb);
    lemma_apart(na + nb, nc);
    lemma_apart(na + nb + nc, nd);
    // every name of the normalized topology names a pool panel, unused at first
    let m0 = Seq::new(pool.len(), |k: int| false);
    assert forall|x: Seq<char>| #[trigger] layout_names(n).contains(x) implies free_index(pool, m0, x, 0) < pool.len() by {
        assert(layout_names(t).contains(x));
        let k = choose|k: int| 0 <= k < layout_names(t).len() && layout_names(t)[k] == x;
        assert(pool[k].name@ == x);
        lemma_free_index_at_most(pool, m0, x, k, 0);
    }
    assert forall|x: Seq<char>| (na + nb).contains(x) implies #[trigger] (na + nb + nc).contains(x) by {
        let j = choose|j: int| 0 <= j < (na + nb).len() && (na + nb)[j] == x;
        assert((na + nb + nc)[j] == x);
    }
    assert forall|x: Seq<char>| (na + nb + nc).contains(x) implies #[trigger] layout_names(n).contains(x) by {
        let j = choose|j: int| 0 <= j < (na + nb + nc).len() && (na + nb + nc)[j] == x;
        assert(layout_names(n)[j] == x);
    }
    assert forall|x: Seq<char>| na.contains(x) implies #[trigger] (na + nb).contains(x) by {
        let j = choose|j: int| 0 <= j < na.len() && na[j] == x;
        assert((na + nb)[j] == x);
    }
    assert forall|x: Seq<char>| nb.contains(x) implies #[trigger] (na + nb).contains(x) by {
        let j = choose|j: int| 0 <= j < nb.len() && nb[j] == x;
        assert((na + nb)[na.len() + j] == x);
    }
    assert forall|x: Seq<char>| nc.contains(x) implies #[trigger] (na + nb + nc).contains(x) by {
        let j = choose|j: int| 0 <= j < nc.len() && nc[j] == x;
        assert((na + nb + nc)[(na + nb).len() + j] == x);
    }
    assert forall|x: Seq<char>| nd.contains(x) implies #[trigger] layout_names(n).contains(x) by {
        let j = choose|j: int| 0 <= j < nd.len() && nd[j] == x;
        assert(layout_names(n)[(na + nb + nc).len() + j] == x);
    }
    // the center
    assert(all_free(pool, m0, na)) by {
        assert forall|i: int| 0 <= i < na.len() implies free_index(pool, m0, #[trigger] na[i], 0) < pool.len() by {
            let x = na[i];
            assert(na.contains(x));
            assert((na + nb).contains(x));
            assert((na + nb + nc).contains(x));
            assert(layout_names(n).contains(x));
        }
    }
    assert(e + na == na);
    lemma_resolution_fidelity(c0, pool, m0, d);
    lemma_resolution_consumes(c0, pool, m0, d);
    let (c, m1) = resolved(c0, pool, m0, d);
    // the left side
    assert(all_free(pool, m1, nb)) by {
        assert forall|i: int| 0 <= i < nb.len() implies free_index(pool, m1, #[trigger] nb[i], 0) < pool.len() by {
            let x = nb[i];
            assert(nb.contains(x));
            assert(!na.contains(x));
            assert((na + nb).contains(x));
            assert((na + nb + nc).contains(x));
            assert(layout_names(n).contains(x));
            assert(free_index(pool, m1, x, 0) == free_index(pool, m0, x, 0));
        }
    }
    lemma_side_step(l0, pool, m1, DOCK_MIN_SIDE_SIZE_BITS, d);
    let (left, m2) = resolved_side(l0, pool, m1, DOCK_MIN_SIDE_SIZE_BITS, d);
    // the right side
    assert(all_free(pool, m2, nc)) by {
        assert forall|i: int| 0 <= i < nc.len() implies free_index(pool, m2, #[trigger] nc[i], 0) < pool.len() by {
            let x = nc[i];
            assert(nc.contains(x));
            assert(!(na + nb).contains(x));
            assert(!na.contains(x));
            assert(!nb.contains(x));
            assert((na + nb + nc).contains(x));
            assert(layout_names(n).contains(x));
            assert(free_index(pool, m1, x, 0) == free_index(pool, m0, x, 0));
            assert(free_index(pool, m2, x, 0) == free_index(pool, m1, x, 0));
        }
    }
    lemma_side_step(r0, pool, m2, DOCK_MIN_SIDE_SIZE_BITS, d);
    let (right, m3) = resolved_side(r0, pool, m2, DOCK_MIN_SIDE_SIZE_BITS, d);
    // the bottom side
    assert(all_free(pool, m3, nd)) by {
        assert forall|i: int| 0 <= i < nd.len() implies free_index(pool, m3, #[trigger] nd[i], 0) < pool.len() by {
            let x = nd[i];
            assert(nd.contains(x));
            assert(!(na + nb + nc).contains(x));
            assert(!(na + nb).contains(x));
            assert(!na.contains(x));
            assert(!nb.contains(x));
            assert(!nc.contains(x));
            assert(layout_names(n).contains(x));
            assert(free_index(pool, m1, x, 0) == free_index(pool, m0, x, 0));
            assert(free_index(pool, m2, x, 0) == free_index(pool, m1, x, 0));
            assert(free_index(pool, m3, x, 0) == free_index(pool, m2, x, 0));
        }
    }
    lemma_side_step(b0, pool, m3, DOCK_MIN_BOTTOM_SIZE_BITS, d);
    let (bottom, m4) = resolved_side(b0, pool, m3, DOCK_MIN_BOTTOM_SIZE_BITS, d);
    // every pool panel is used
    assert forall|k: int| 0 <= k < pool.len() implies #[trigger] m4[k] by {
        let x = pool[k].name@;
        assert(layout_names(t)[k] == x);
        assert(layout_names(t).contains(x));
        assert(layout_names(n).contains(x));
        let j = choose|j: int| 0 <= j < layout_names(n).len() && layout_names(n)[j] == x;
        if j < na.len() {
            assert(na[j] == x && na.contains(x));
            assert(!nb.contains(x) && !nc.contains(x) && !nd.contains(x)) by {
                assert((na + nb).contains(x));
                assert((na + nb + nc).contains(x));
            }
        } else if j < na.len() + nb.len() {
            assert(nb[j - na.len()] == x && nb.contains(x));
            assert(!nc.contains(x) && !nd.contains(x)) by {
                assert((na + nb).contains(x));
                assert((na + nb + nc).contains(x));
            }
        } else if j < na.len() + nb.len() + nc.len() {
            assert(nc[j - na.len() - nb.len()] == x && nc.contains(x));
            assert(!nd.contains(x)) by {
                assert((na + nb + nc).contains(x));
            }
        } else {
            assert(nd[j - na.len() - nb.len() - nc.len()] == x && nd.contains(x));
        }
        assert(free_index(pool, m4, x, 0) == pool.len());
        if !m4[k] {
            lemma_free_index_at_most(pool, m4, x, k, 0);
        }
    }
    lemma_unused_none(pool, m4);
    // the installed layout
    let r = resolved_layout(l, n, Seq::empty(), true, d);
    assert(r == (c, left, right, bottom));
    let names = super::shared::layout_active_names(l);
    lemma_topo_with_active(c, names);
    lemma_topo_unpinned(with_active_from(c, names));
    match left {
        Some(v) => {
            lemma_topo_with_active(v.0, names);
            lemma_topo_unpinned(with_active_from(v.0, names));
        },
        None => {},
    }
    match right {
        Some(v) => {
            lemma_topo_with_active(v.0, names);
            lemma_topo_unpinned(with_active_from(v.0, names));
        },
        None => {},
    }
    match bottom {
        Some(v) => {
            lemma_topo_with_active(v.0, names);
            lemma_topo_unpinned(with_active_from(v.0, names));
        },
        None => {},
    }
    let next = applied_layout(l, n, Seq::empty(), Seq::empty(), d);
    assert(topo_layout_of(next) == n);
}

} // verus!
