//! Properties of the dock topology that hold across its operations.

use vstd::prelude::*;

use super::edit::tabs_activated;
use super::resolve::{
    free_index, panel_names, resolved, resolved_children, take_free, take_free_all, take_free_tiles,
    topo_of, topo_of_all,
};
use super::item::{
    enforced, first_id_index, has_id, pin_rank, pinned_order, ranked_upto,
    collapse_split, collapse_tabs, collapse_tiles, kept_children, kept_tiles, keeps, lemma_panels_of_all_push,
    panels_of, panels_of_all, with_added, without_name, without_named, DockNode, DockPanel, TileMeta,
};
use super::topology::{
    canonical_tile_meta, is_finite_bits, is_positive_bits, normalized_children, normalized_layout,
    normalized_node, normalized_side, topo_names, topo_names_all, layout_names, side_names,
    first_unique_names, unique_tiles, TopoLayout, TopoNode, TopoSide, DOCK_TILE_MIN_H_BITS,
    DOCK_TILE_MIN_W_BITS,
};

verus! {

/// Removing `n` from `s + t` removes it from each part.
proof fn lemma_without_name_add(s: Seq<DockPanel>, t: Seq<DockPanel>, n: Seq<char>)
    ensures
        without_name(s + t, n) == without_name(s, n) + without_name(t, n),
    decreases t.len(),
{
    reveal_with_fuel(Seq::filter, 1);
    if t.len() == 0 {
        assert(s + t == s);
        assert(without_name(s, n) + without_name(t, n) == without_name(s, n));
    } else {
        lemma_without_name_add(s, t.drop_last(), n);
        assert((s + t).drop_last() == s + t.drop_last());
        assert((s + t).last() == t.last());
    }
}

/// The tiles kept by a removal are the panels not named `n`.
proof fn lemma_kept_tiles_panels(items: Seq<DockPanel>, metas: Seq<TileMeta>, n: Seq<char>, d: spec_fn(usize) -> TileMeta)
    ensures
        kept_tiles(items, metas, n, d).0 == without_name(items, n),
    decreases items.len(),
{
    reveal_with_fuel(Seq::filter, 1);
    if items.len() > 0 {
        lemma_kept_tiles_panels(items.drop_last(), metas, n, d);
    }
}

/// The panels of the lone surviving child are those of the survivors.
proof fn lemma_panels_of_all_single(c: DockNode)
    ensures
        panels_of_all(seq![c]) == panels_of(c),
{
    assert(seq![c].drop_last() == Seq::<DockNode>::empty());
    assert(panels_of_all(Seq::<DockNode>::empty()) + panels_of(c) == panels_of(c));
}

/// Removing a name from a node keeps every other panel, in order.
pub proof fn lemma_removal_keeps_others(node: DockNode, n: Seq<char>, d: spec_fn(usize) -> TileMeta)
    ensures
        panels_of(without_named(node, n, d)) == without_name(panels_of(node), n),
    decreases node,
{
    reveal_with_fuel(Seq::filter, 2);
    match node {
        DockNode::Empty => {},
        DockNode::Panel(p) => {
            assert(seq![p].drop_last() == Seq::<DockPanel>::empty());
        },
        DockNode::Tabs { items, active_ix } => {
            let kept = without_name(items, n);
            if kept.len() == 1 {
                assert(seq![kept[0]] == kept);
            }
        },
        DockNode::Tiles { items, metas } => {
            lemma_kept_tiles_panels(items, metas, n, d);
            let kept = kept_tiles(items, metas, n, d).0;
            if kept.len() == 1 {
                assert(seq![kept[0]] == kept);
            }
        },
        DockNode::Split { horizontal, children, sizes } => {
            lemma_kept_children_panels(children, sizes, n, d);
            let kc = kept_children(children, sizes, n, d).0;
            if kc.len() == 1 {
                assert(kc == seq![kc[0]]);
                lemma_panels_of_all_single(kc[0]);
            }
        },
    }
}

/// The children kept by a removal hold every other panel of the split, in order.
proof fn lemma_kept_children_panels(children: Seq<DockNode>, sizes: Seq<Option<u32>>, n: Seq<char>, d: spec_fn(usize) -> TileMeta)
    ensures
        panels_of_all(kept_children(children, sizes, n, d).0) == without_name(panels_of_all(children), n),
    decreases children,
{
    reveal_with_fuel(Seq::filter, 1);
    if children.len() > 0 {
        let rest = children.drop_last();
        let last = children.last();
        lemma_kept_children_panels(rest, sizes, n, d);
        lemma_removal_keeps_others(last, n, d);
        lemma_without_name_add(panels_of_all(rest), panels_of(last), n);
        let kc = kept_children(rest, sizes, n, d).0;
        let c = without_named(last, n, d);
        if !(c is Empty) {
            lemma_panels_of_all_push(kc, c);
        } else {
            assert(panels_of(c) == Seq::<DockPanel>::empty());
            assert(without_name(panels_of(last), n) == Seq::<DockPanel>::empty());
            assert(without_name(panels_of_all(rest), n) + Seq::<DockPanel>::empty() == without_name(panels_of_all(rest), n));
        }
    }
}

/// No panel carrying a removed name is left.
pub proof fn lemma_removal_leaves_none(node: DockNode, n: Seq<char>, d: spec_fn(usize) -> TileMeta)
    ensures
        forall|i: int| 0 <= i < panels_of(without_named(node, n, d)).len()
            ==> #[trigger] panels_of(without_named(node, n, d))[i].name@ != n,
{
    broadcast use vstd::seq_lib::group_filter_ensures;
    lemma_removal_keeps_others(node, n, d);
    assert forall|i: int| 0 <= i < without_name(panels_of(node), n).len()
        implies #[trigger] without_name(panels_of(node), n)[i].name@ != n by {
        assert(keeps(without_name(panels_of(node), n)[i], n));
    }
}

/// An added panel is shown: the node becomes the panel itself, or a tab group with it as
/// the active tab.
pub proof fn lemma_added_panel_is_active(node: DockNode, p: DockPanel)
    ensures
        with_added(node, p) == DockNode::Panel(p) || (with_added(node, p) matches DockNode::Tabs { items, active_ix }
            && active_ix < items.len() && items[active_ix as int] == p),
{
}

/// Activating a tab never adds, removes or reorders panels.
pub proof fn lemma_activation_keeps_panels(node: DockNode, ix: nat)
    ensures
        panels_of(tabs_activated(node, ix).0) == panels_of(node),
{
}

/// The names of `s` are all non-empty and no two are equal.
pub open spec fn distinct_nonempty(s: Seq<Seq<char>>) -> bool {
    &&& forall|i: int| 0 <= i < s.len() ==> (#[trigger] s[i]).len() > 0
    &&& forall|i: int, j: int| 0 <= i < j < s.len() ==> #[trigger] s[i] != #[trigger] s[j]
}

proof fn lemma_distinct_push(s: Seq<Seq<char>>, n: Seq<char>)
    requires
        distinct_nonempty(s),
        n.len() > 0,
        !s.contains(n),
    ensures
        distinct_nonempty(s.push(n)),
{
    assert forall|i: int, j: int| 0 <= i < j < s.push(n).len() implies #[trigger] s.push(n)[i] != #[trigger] s.push(n)[j] by {
        if j == s.len() {
            assert(s[i] == s.push(n)[i]);
        } else {
            assert(s.push(n)[i] == s[i] && s.push(n)[j] == s[j]);
        }
    }
}

proof fn lemma_unique_names_extend(names: Seq<Seq<char>>, seen: Seq<Seq<char>>)
    ensures
        first_unique_names(names, seen).1 == seen + first_unique_names(names, seen).0,
        distinct_nonempty(seen) ==> distinct_nonempty(first_unique_names(names, seen).1),
    decreases names.len(),
{
    if names.len() > 0 {
        lemma_unique_names_extend(names.drop_last(), seen);
        let (kept, s) = first_unique_names(names.drop_last(), seen);
        let n = names.last();
        if !(n.len() == 0 || s.contains(n)) {
            assert(s.push(n) == seen + kept.push(n));
            if distinct_nonempty(seen) {
                lemma_distinct_push(s, n);
            }
        }
    }
}

proof fn lemma_unique_tiles_extend(names: Seq<Seq<char>>, metas: Seq<TileMeta>, seen: Seq<Seq<char>>, d: spec_fn(usize) -> TileMeta)
    ensures
        unique_tiles(names, metas, seen, d).2 == seen + unique_tiles(names, metas, seen, d).0,
        distinct_nonempty(seen) ==> distinct_nonempty(unique_tiles(names, metas, seen, d).2),
    decreases names.len(),
{
    if names.len() > 0 {
        lemma_unique_tiles_extend(names.drop_last(), metas, seen, d);
        let (kn, km, s) = unique_tiles(names.drop_last(), metas, seen, d);
        let n = names.last();
        if !(n.len() == 0 || s.contains(n)) {
            assert(s.push(n) == seen + kn.push(n));
            if distinct_nonempty(seen) {
                lemma_distinct_push(s, n);
            }
        }
    }
}

pub(crate) proof fn lemma_topo_names_all_single(c: TopoNode)
    ensures
        topo_names_all(seq![c]) == topo_names(c),
{
    assert(seq![c].drop_last() == Seq::<TopoNode>::empty());
    assert(topo_names_all(Seq::<TopoNode>::empty()) + topo_names(c) == topo_names(c));
}

/// Normalizing a node extends the names seen by exactly the names it keeps, each new,
/// non-empty and kept once.
pub proof fn lemma_normalized_node_names(node: TopoNode, seen: Seq<Seq<char>>, d: spec_fn(usize) -> TileMeta)
    ensures
        normalized_node(node, seen, d).1 == seen + topo_names(normalized_node(node, seen, d).0),
        distinct_nonempty(seen) ==> distinct_nonempty(normalized_node(node, seen, d).1),
    decreases node,
{
    match node {
        TopoNode::Empty => {
            assert(seen + Seq::<Seq<char>>::empty() == seen);
        },
        TopoNode::Panel(n) => {
            if n.len() == 0 || seen.contains(n) {
                assert(seen + Seq::<Seq<char>>::empty() == seen);
            } else {
                assert(seen.push(n) == seen + seq![n]);
                if distinct_nonempty(seen) {
                    lemma_distinct_push(seen, n);
                }
            }
        },
        TopoNode::Tabs(names) => {
            lemma_unique_names_extend(names, seen);
            let u = first_unique_names(names, seen).0;
            if u.len() == 1 {
                assert(seq![u[0]] == u);
            }
            if u.len() == 0 {
                assert(seen + u == seen);
            }
        },
        TopoNode::Tiles(names, metas) => {
            lemma_unique_tiles_extend(names, metas, seen, d);
            let kn = unique_tiles(names, metas, seen, d).0;
            if kn.len() == 1 {
                assert(seq![kn[0]] == kn);
            }
            if kn.len() == 0 {
                assert(seen + kn == seen);
            }
        },
        TopoNode::Split(horizontal, items, sizes) => {
            lemma_normalized_children_names(items, sizes, seen, d);
            let kc = normalized_children(items, sizes, seen, d).0;
            if kc.len() == 1 {
                assert(kc == seq![kc[0]]);
                lemma_topo_names_all_single(kc[0]);
            }
            if kc.len() == 0 {
                assert(topo_names_all(kc) == Seq::<Seq<char>>::empty());
                assert(seen + Seq::<Seq<char>>::empty() == seen);
            }
        },
    }
}

pub(crate) proof fn lemma_normalized_children_names(items: Seq<TopoNode>, sizes: Seq<Option<u32>>, seen: Seq<Seq<char>>, d: spec_fn(usize) -> TileMeta)
    ensures
        normalized_children(items, sizes, seen, d).2 == seen + topo_names_all(normalized_children(items, sizes, seen, d).0),
        distinct_nonempty(seen) ==> distinct_nonempty(normalized_children(items, sizes, seen, d).2),
    decreases items,
{
    if items.len() == 0 {
        assert(seen + Seq::<Seq<char>>::empty() == seen);
    } else {
        let rest = items.drop_last();
        lemma_normalized_children_names(rest, sizes, seen, d);
        let (kc, ks, s) = normalized_children(rest, sizes, seen, d);
        lemma_normalized_node_names(items.last(), s, d);
        let (c, s2) = normalized_node(items.last(), s, d);
        if c is Empty {
            assert(s + Seq::<Seq<char>>::empty() == s);
        } else {
            assert(kc.push(c).drop_last() == kc);
            assert(seen + topo_names_all(kc) + topo_names(c) == seen + (topo_names_all(kc) + topo_names(c)));
        }
    }
}

pub(crate) proof fn lemma_normalized_side_names(side: Option<TopoSide>, seen: Seq<Seq<char>>, d: spec_fn(usize) -> TileMeta)
    ensures
        normalized_side(side, seen, d).1 == seen + side_names(normalized_side(side, seen, d).0),
        distinct_nonempty(seen) ==> distinct_nonempty(normalized_side(side, seen, d).1),
{
    match side {
        None => {
            assert(seen + Seq::<Seq<char>>::empty() == seen);
        },
        Some(s) => {
            lemma_normalized_node_names(s.item, seen, d);
            if normalized_node(s.item, seen, d).0 is Empty {
                assert(seen + Seq::<Seq<char>>::empty() == seen);
            }
        },
    }
}

/// Whether every name of `a` is a name of `b`.
pub open spec fn names_within(a: Seq<Seq<char>>, b: Seq<Seq<char>>) -> bool {
    forall|x: Seq<char>| a.contains(x) ==> #[trigger] b.contains(x)
}

/// Whether every non-empty name of `a` is a name of `b`.
pub open spec fn nonempty_within(a: Seq<Seq<char>>, b: Seq<Seq<char>>) -> bool {
    forall|x: Seq<char>| a.contains(x) && x.len() > 0 ==> #[trigger] b.contains(x)
}

proof fn lemma_within_concat(a: Seq<Seq<char>>, b: Seq<Seq<char>>, c: Seq<Seq<char>>)
    ensures
        names_within(a, c) && names_within(b, c) ==> names_within(a + b, c),
        names_within(a, a + b),
        names_within(b, a + b),
{
    assert forall|x: Seq<char>| a.contains(x) implies #[trigger] (a + b).contains(x) by {
        let j = choose|j: int| 0 <= j < a.len() && a[j] == x;
        assert((a + b)[j] == x);
    }
    assert forall|x: Seq<char>| b.contains(x) implies #[trigger] (a + b).contains(x) by {
        let j = choose|j: int| 0 <= j < b.len() && b[j] == x;
        assert((a + b)[a.len() + j] == x);
    }
    if names_within(a, c) && names_within(b, c) {
        assert forall|x: Seq<char>| (a + b).contains(x) implies #[trigger] c.contains(x) by {
            let j = choose|j: int| 0 <= j < (a + b).len() && (a + b)[j] == x;
            if j < a.len() {
                assert(a[j] == x);
                assert(a.contains(x));
            } else {
                assert(b[j - a.len()] == x);
                assert(b.contains(x));
            }
        }
    }
}

proof fn lemma_unique_names_cover(names: Seq<Seq<char>>, seen: Seq<Seq<char>>)
    ensures
        names_within(first_unique_names(names, seen).0, names),
        nonempty_within(names, first_unique_names(names, seen).1),
        names_within(seen, first_unique_names(names, seen).1),
    decreases names.len(),
{
    if names.len() > 0 {
        let init = names.drop_last();
        let n = names.last();
        lemma_unique_names_cover(init, seen);
        let (kept, s1) = first_unique_names(init, seen);
        assert(names == init.push(n));
        assert forall|x: Seq<char>| init.contains(x) implies #[trigger] names.contains(x) by {
            let j = choose|j: int| 0 <= j < init.len() && init[j] == x;
            assert(names[j] == x);
        }
        assert(names.contains(n)) by {
            assert(names[names.len() - 1] == n);
        }
        if !(n.len() == 0 || s1.contains(n)) {
            assert forall|x: Seq<char>| kept.push(n).contains(x) implies #[trigger] names.contains(x) by {
                let j = choose|j: int| 0 <= j < kept.push(n).len() && kept.push(n)[j] == x;
                if j < kept.len() {
                    assert(kept[j] == x);
                    assert(kept.contains(x));
                }
            }
            assert forall|x: Seq<char>| s1.contains(x) implies #[trigger] s1.push(n).contains(x) by {
                let j = choose|j: int| 0 <= j < s1.len() && s1[j] == x;
                assert(s1.push(n)[j] == x);
            }
            assert(s1.push(n)[s1.len() as int] == n);
        }
        let s2 = first_unique_names(names, seen).1;
        assert forall|x: Seq<char>| names.contains(x) && x.len() > 0 implies #[trigger] s2.contains(x) by {
            let j = choose|j: int| 0 <= j < names.len() && names[j] == x;
            if j < init.len() {
                assert(init[j] == x);
                assert(init.contains(x));
            }
        }
    }
}

proof fn lemma_unique_tiles_cover(names: Seq<Seq<char>>, metas: Seq<TileMeta>, seen: Seq<Seq<char>>, d: spec_fn(usize) -> TileMeta)
    ensures
        names_within(unique_tiles(names, metas, seen, d).0, names),
        nonempty_within(names, unique_tiles(names, metas, seen, d).2),
        names_within(seen, unique_tiles(names, metas, seen, d).2),
    decreases names.len(),
{
    if names.len() > 0 {
        let init = names.drop_last();
        let n = names.last();
        lemma_unique_tiles_cover(init, metas, seen, d);
        let (kn, km, s1) = unique_tiles(init, metas, seen, d);
        assert(names == init.push(n));
        assert forall|x: Seq<char>| init.contains(x) implies #[trigger] names.contains(x) by {
            let j = choose|j: int| 0 <= j < init.len() && init[j] == x;
            assert(names[j] == x);
        }
        assert(names.contains(n)) by {
            assert(names[names.len() - 1] == n);
        }
        if !(n.len() == 0 || s1.contains(n)) {
            assert forall|x: Seq<char>| kn.push(n).contains(x) implies #[trigger] names.contains(x) by {
                let j = choose|j: int| 0 <= j < kn.push(n).len() && kn.push(n)[j] == x;
                if j < kn.len() {
                    assert(kn[j] == x);
                    assert(kn.contains(x));
                }
            }
            assert forall|x: Seq<char>| s1.contains(x) implies #[trigger] s1.push(n).contains(x) by {
                let j = choose|j: int| 0 <= j < s1.len() && s1[j] == x;
                assert(s1.push(n)[j] == x);
            }
            assert(s1.push(n)[s1.len() as int] == n);
        }
        let s2 = unique_tiles(names, metas, seen, d).2;
        assert forall|x: Seq<char>| names.contains(x) && x.len() > 0 implies #[trigger] s2.contains(x) by {
            let j = choose|j: int| 0 <= j < names.len() && names[j] == x;
            if j < init.len() {
                assert(init[j] == x);
                assert(init.contains(x));
            }
        }
    }
}

proof fn lemma_normalized_children_cover(items: Seq<TopoNode>, sizes: Seq<Option<u32>>, seen: Seq<Seq<char>>, d: spec_fn(usize) -> TileMeta)
    ensures
        names_within(topo_names_all(normalized_children(items, sizes, seen, d).0), topo_names_all(items)),
        nonempty_within(topo_names_all(items), normalized_children(items, sizes, seen, d).2),
        names_within(seen, normalized_children(items, sizes, seen, d).2),
    decreases items,
{
    if items.len() == 0 {
    } else {
        let init = items.drop_last();
        let last = items.last();
        lemma_normalized_children_cover(init, sizes, seen, d);
        let (kc, ks, s1) = normalized_children(init, sizes, seen, d);
        lemma_normalized_cover(last, s1, d);
        let (c, s2) = normalized_node(last, s1, d);
        assert(topo_names_all(items) == topo_names_all(init) + topo_names(last));
        lemma_within_concat(topo_names_all(init), topo_names(last), topo_names_all(items));
        if !(c is Empty) {
            assert(kc.push(c).drop_last() == kc);
            assert(topo_names_all(kc.push(c)) == topo_names_all(kc) + topo_names(c));
            lemma_within_concat(topo_names_all(kc), topo_names(c), topo_names_all(items));
        }
        assert forall|x: Seq<char>| topo_names_all(items).contains(x) && x.len() > 0 implies #[trigger] s2.contains(x) by {
            let j = choose|j: int| 0 <= j < topo_names_all(items).len() && topo_names_all(items)[j] == x;
            if j < topo_names_all(init).len() {
                assert(topo_names_all(init)[j] == x);
                assert(topo_names_all(init).contains(x));
                assert(s1.contains(x));
            } else {
                assert(topo_names(last)[j - topo_names_all(init).len()] == x);
                assert(topo_names(last).contains(x));
            }
        }
    }
}

/// Normalizing keeps only names the node had, and records every non-empty name it had.
pub proof fn lemma_normalized_cover(node: TopoNode, seen: Seq<Seq<char>>, d: spec_fn(usize) -> TileMeta)
    ensures
        names_within(topo_names(normalized_node(node, seen, d).0), topo_names(node)),
        nonempty_within(topo_names(node), normalized_node(node, seen, d).1),
        names_within(seen, normalized_node(node, seen, d).1),
    decreases node,
{
    match node {
        TopoNode::Empty => {},
        TopoNode::Panel(n) => {
            if !(n.len() == 0 || seen.contains(n)) {
                assert(seen.push(n)[seen.len() as int] == n);
                assert forall|x: Seq<char>| seen.contains(x) implies #[trigger] seen.push(n).contains(x) by {
                    let j = choose|j: int| 0 <= j < seen.len() && seen[j] == x;
                    assert(seen.push(n)[j] == x);
                }
            }
            assert forall|x: Seq<char>| topo_names(node).contains(x) && x.len() > 0 implies #[trigger] normalized_node(node, seen, d).1.contains(x) by {
                let j = choose|j: int| 0 <= j < topo_names(node).len() && topo_names(node)[j] == x;
                assert(j == 0);
            }
        },
        TopoNode::Tabs(names) => {
            lemma_unique_names_cover(names, seen);
            let u = first_unique_names(names, seen).0;
            if u.len() == 1 {
                assert(u.contains(u[0]));
            }
        },
        TopoNode::Tiles(names, metas) => {
            lemma_unique_tiles_cover(names, metas, seen, d);
            let kn = unique_tiles(names, metas, seen, d).0;
            if kn.len() == 1 {
                assert(kn.contains(kn[0]));
            }
        },
        TopoNode::Split(h, items, sizes) => {
            lemma_normalized_children_cover(items, sizes, seen, d);
            let kc = normalized_children(items, sizes, seen, d).0;
            if kc.len() == 1 {
                assert(kc == seq![kc[0]]);
                lemma_topo_names_all_single(kc[0]);
            }
        },
    }
}

proof fn lemma_normalized_side_cover(side: Option<TopoSide>, seen: Seq<Seq<char>>, d: spec_fn(usize) -> TileMeta)
    ensures
        names_within(side_names(normalized_side(side, seen, d).0), side_names(side)),
        nonempty_within(side_names(side), normalized_side(side, seen, d).1),
        names_within(seen, normalized_side(side, seen, d).1),
{
    match side {
        Some(s) => {
            lemma_normalized_cover(s.item, seen, d);
        },
        None => {},
    }
}

/// A normalized topology names only names the topology had, and every non-empty one.
pub proof fn lemma_normalized_layout_cover(t: TopoLayout, d: spec_fn(usize) -> TileMeta)
    ensures
        names_within(layout_names(normalized_layout(t, d)), layout_names(t)),
        nonempty_within(layout_names(t), layout_names(normalized_layout(t, d))),
{
    let e = Seq::<Seq<char>>::empty();
    let n = normalized_layout(t, d);
    lemma_normalized_node_names(t.center, e, d);
    lemma_normalized_cover(t.center, e, d);
    let (center, s1) = normalized_node(t.center, e, d);
    lemma_normalized_side_names(t.left, s1, d);
    lemma_normalized_side_cover(t.left, s1, d);
    let (left, s2) = normalized_side(t.left, s1, d);
    lemma_normalized_side_names(t.right, s2, d);
    lemma_normalized_side_cover(t.right, s2, d);
    let (right, s3) = normalized_side(t.right, s2, d);
    lemma_normalized_side_names(t.bottom, s3, d);
    lemma_normalized_side_cover(t.bottom, s3, d);
    let (bottom, s4) = normalized_side(t.bottom, s3, d);
    assert(e + topo_names(center) == topo_names(center));
    assert(s4 == layout_names(n));
    let a = topo_names(t.center);
    let b = side_names(t.left);
    let c = side_names(t.right);
    let dd = side_names(t.bottom);
    assert(layout_names(t) == a + b + c + dd);
    lemma_within_concat(a, b, a + b);
    lemma_within_concat(a + b, c, a + b + c);
    lemma_within_concat(a + b + c, dd, layout_names(t));
    let na = topo_names(center);
    let nb = side_names(left);
    let nc = side_names(right);
    let nd = side_names(bottom);
    assert(layout_names(n) == na + nb + nc + nd);
    // every kept name was a name of its part, hence of the topology
    assert(names_within(na, layout_names(t))) by {
        assert forall|x: Seq<char>| na.contains(x) implies #[trigger] layout_names(t).contains(x) by {
            assert(a.contains(x));
            assert((a + b).contains(x));
            assert((a + b + c).contains(x));
        }
    }
    assert(names_within(nb, layout_names(t))) by {
        assert forall|x: Seq<char>| nb.contains(x) implies #[trigger] layout_names(t).contains(x) by {
            assert(b.contains(x));
            assert((a + b).contains(x));
            assert((a + b + c).contains(x));
        }
    }
    assert(names_within(nc, layout_names(t))) by {
        assert forall|x: Seq<char>| nc.contains(x) implies #[trigger] layout_names(t).contains(x) by {
            assert(c.contains(x));
            assert((a + b + c).contains(x));
        }
    }
    assert(names_within(nd, layout_names(t))) by {
        assert forall|x: Seq<char>| nd.contains(x) implies #[trigger] layout_names(t).contains(x) by {
            assert(dd.contains(x));
        }
    }
    lemma_within_concat(na, nb, layout_names(t));
    lemma_within_concat(na + nb, nc, layout_names(t));
    lemma_within_concat(na + nb + nc, nd, layout_names(t));
    // every non-empty name of the topology is recorded by the end
    assert forall|x: Seq<char>| layout_names(t).contains(x) && x.len() > 0 implies #[trigger] s4.contains(x) by {
        let j = choose|j: int| 0 <= j < layout_names(t).len() && layout_names(t)[j] == x;
        if j < a.len() {
            assert(a[j] == x);
            assert(a.contains(x));
        } else if j < a.len() + b.len() {
            assert(b[j - a.len()] == x);
            assert(b.contains(x));
        } else if j < a.len() + b.len() + c.len() {
            assert(c[j - a.len() - b.len()] == x);
            assert(c.contains(x));
        } else {
            assert(dd[j - a.len() - b.len() - c.len()] == x);
            assert(dd.contains(x));
        }
    }
}

/// A normalized topology names every panel once, and never with an empty name.
pub proof fn lemma_normalized_names_unique(t: TopoLayout, d: spec_fn(usize) -> TileMeta)
    ensures
        distinct_nonempty(layout_names(normalized_layout(t, d))),
{
    let e = Seq::<Seq<char>>::empty();
    lemma_normalized_node_names(t.center, e, d);
    let (center, s1) = normalized_node(t.center, e, d);
    lemma_normalized_side_names(t.left, s1, d);
    let (left, s2) = normalized_side(t.left, s1, d);
    lemma_normalized_side_names(t.right, s2, d);
    let (right, s3) = normalized_side(t.right, s2, d);
    lemma_normalized_side_names(t.bottom, s3, d);
    let (bottom, s4) = normalized_side(t.bottom, s3, d);
    assert(e + topo_names(center) == topo_names(center));
    assert(s4 == topo_names(center) + side_names(left) + side_names(right) + side_names(bottom));
}


/// Whether a split slot is flexible or a finite positive size.
pub open spec fn sized_ok(s: Option<u32>) -> bool {
    match s {
        Some(b) => is_positive_bits(b),
        None => true,
    }
}

/// Whether a node has the shape normalization gives: tab and tile groups hold two names or
/// more, tiles have one canonical geometry each, and splits hold two children or more, none
/// empty and each of this shape, with one flexible or finite positive size per child.
pub open spec fn is_normal(node: TopoNode) -> bool
    decreases node,
{
    match node {
        TopoNode::Tabs(u) => u.len() >= 2,
        TopoNode::Tiles(kn, km) => kn.len() >= 2 && km.len() == kn.len()
            && forall|i: int| 0 <= i < km.len() ==> #[trigger] canonical_tile_meta(km[i]) == km[i],
        TopoNode::Split(_, kc, ks) => kc.len() >= 2 && ks.len() == kc.len() && normal_children(kc)
            && forall|i: int| 0 <= i < ks.len() ==> #[trigger] sized_ok(ks[i]),
        _ => true,
    }
}

/// Whether every node of a sequence is non-empty and has the shape normalization gives.
pub open spec fn normal_children(kc: Seq<TopoNode>) -> bool
    decreases kc,
{
    kc.len() == 0 || (normal_children(kc.drop_last()) && !(kc.last() is Empty) && is_normal(kc.last()))
}

/// A side as normalization leaves it: a non-empty tree of normal shape and a size that is
/// finite and positive, or zero.
pub open spec fn is_normal_side(side: Option<TopoSide>) -> bool {
    match side {
        Some(s) => !(s.item is Empty) && is_normal(s.item) && (is_positive_bits(s.size) || s.size == 0),
        None => true,
    }
}

pub proof fn lemma_distinct_prefix(a: Seq<Seq<char>>, b: Seq<Seq<char>>)
    requires
        distinct_nonempty(a + b),
    ensures
        distinct_nonempty(a),
{
    assert forall|i: int| 0 <= i < a.len() implies (#[trigger] a[i]).len() > 0 by {
        assert((a + b)[i] == a[i]);
    }
    assert forall|i: int, j: int| 0 <= i < j < a.len() implies #[trigger] a[i] != #[trigger] a[j] by {
        assert((a + b)[i] == a[i] && (a + b)[j] == a[j]);
    }
}

proof fn lemma_canonical_tile_meta_fixed(m: TileMeta)
    ensures
        canonical_tile_meta(canonical_tile_meta(m)) == canonical_tile_meta(m),
{
    assert(is_finite_bits(0));
    assert(is_positive_bits(DOCK_TILE_MIN_W_BITS));
    assert(is_positive_bits(DOCK_TILE_MIN_H_BITS));
}

proof fn lemma_unique_tiles_shape(names: Seq<Seq<char>>, metas: Seq<TileMeta>, seen: Seq<Seq<char>>, d: spec_fn(usize) -> TileMeta)
    ensures
        unique_tiles(names, metas, seen, d).1.len() == unique_tiles(names, metas, seen, d).0.len(),
        forall|i: int| 0 <= i < unique_tiles(names, metas, seen, d).1.len()
            ==> #[trigger] canonical_tile_meta(unique_tiles(names, metas, seen, d).1[i]) == unique_tiles(names, metas, seen, d).1[i],
    decreases names.len(),
{
    if names.len() > 0 {
        lemma_unique_tiles_shape(names.drop_last(), metas, seen, d);
        let (kn, km, s) = unique_tiles(names.drop_last(), metas, seen, d);
        let n = names.last();
        if !(n.len() == 0 || s.contains(n)) {
            let m = canonical_tile_meta(super::item::meta_at(metas, names.len() - 1, d));
            lemma_canonical_tile_meta_fixed(super::item::meta_at(metas, names.len() - 1, d));
            assert forall|i: int| 0 <= i < km.push(m).len() implies #[trigger] canonical_tile_meta(km.push(m)[i]) == km.push(m)[i] by {
                if i < km.len() {
                    assert(km.push(m)[i] == km[i]);
                }
            }
        }
    }
}

proof fn lemma_normalized_children_normal(items: Seq<TopoNode>, sizes: Seq<Option<u32>>, seen: Seq<Seq<char>>, d: spec_fn(usize) -> TileMeta)
    ensures
        normalized_children(items, sizes, seen, d).1.len() == normalized_children(items, sizes, seen, d).0.len(),
        normal_children(normalized_children(items, sizes, seen, d).0),
        forall|i: int| 0 <= i < normalized_children(items, sizes, seen, d).1.len()
            ==> #[trigger] sized_ok(normalized_children(items, sizes, seen, d).1[i]),
    decreases items,
{
    if items.len() > 0 {
        let rest = items.drop_last();
        lemma_normalized_children_normal(rest, sizes, seen, d);
        let (kc, ks, s) = normalized_children(rest, sizes, seen, d);
        lemma_normalized_is_normal(items.last(), s, d);
        let (c, s2) = normalized_node(items.last(), s, d);
        if !(c is Empty) {
            let size = match super::item::size_at(sizes, items.len() - 1) {
                Some(b) => super::topology::positive_or_none(b),
                None => None,
            };
            assert(kc.push(c).drop_last() == kc);
            assert(sized_ok(size));
            assert forall|i: int| 0 <= i < ks.push(size).len() implies #[trigger] sized_ok(ks.push(size)[i]) by {
                if i < ks.len() {
                    assert(ks.push(size)[i] == ks[i]);
                }
            }
        }
    }
}

/// Normalization gives a node of normal shape.
pub proof fn lemma_normalized_is_normal(node: TopoNode, seen: Seq<Seq<char>>, d: spec_fn(usize) -> TileMeta)
    ensures
        is_normal(normalized_node(node, seen, d).0),
    decreases node,
{
    match node {
        TopoNode::Tiles(names, metas) => {
            lemma_unique_tiles_shape(names, metas, seen, d);
        },
        TopoNode::Split(horizontal, items, sizes) => {
            lemma_normalized_children_normal(items, sizes, seen, d);
            let kc = normalized_children(items, sizes, seen, d).0;
            if kc.len() == 1 {
                assert(kc.last() == kc[0]);
            }
        },
        _ => {},
    }
}

pub(crate) proof fn lemma_unique_names_fixed(u: Seq<Seq<char>>, s: Seq<Seq<char>>)
    requires
        distinct_nonempty(s + u),
    ensures
        first_unique_names(u, s) == (u, s + u),
    decreases u.len(),
{
    if u.len() == 0 {
        assert(s + u == s);
    } else {
        let init = u.drop_last();
        let n = u.last();
        assert(s + u == (s + init).push(n));
        assert((s + init).push(n) == (s + init) + seq![n]);
        lemma_distinct_prefix(s + init, seq![n]);
        lemma_unique_names_fixed(init, s);
        assert((s + u)[(s + u).len() - 1] == n);
        assert(n.len() > 0);
        assert(!(s + init).contains(n)) by {
            if (s + init).contains(n) {
                let k = choose|k: int| 0 <= k < (s + init).len() && (s + init)[k] == n;
                assert((s + u)[k] == (s + init)[k]);
            }
        }
        assert(init.push(n) == u);
    }
}

proof fn lemma_unique_tiles_fixed(kn: Seq<Seq<char>>, km: Seq<TileMeta>, s: Seq<Seq<char>>, d: spec_fn(usize) -> TileMeta)
    requires
        distinct_nonempty(s + kn),
        km.len() >= kn.len(),
        forall|i: int| 0 <= i < km.len() ==> #[trigger] canonical_tile_meta(km[i]) == km[i],
    ensures
        unique_tiles(kn, km, s, d) == (kn, km.take(kn.len() as int), s + kn),
    decreases kn.len(),
{
    if kn.len() == 0 {
        assert(s + kn == s);
        assert(km.take(0) == Seq::<TileMeta>::empty());
    } else {
        let init = kn.drop_last();
        let n = kn.last();
        assert(s + kn == (s + init).push(n));
        assert((s + init).push(n) == (s + init) + seq![n]);
        lemma_distinct_prefix(s + init, seq![n]);
        lemma_unique_tiles_fixed(init, km, s, d);
        assert((s + kn)[(s + kn).len() - 1] == n);
        assert(!(s + init).contains(n)) by {
            if (s + init).contains(n) {
                let k = choose|k: int| 0 <= k < (s + init).len() && (s + init)[k] == n;
                assert((s + kn)[k] == (s + init)[k]);
            }
        }
        let i = kn.len() - 1;
        assert(super::item::meta_at(km, i, d) == km[i]);
        assert(canonical_tile_meta(km[i]) == km[i]);
        assert(km.take(i).push(km[i]) == km.take(kn.len() as int));
        assert(init.push(n) == kn);
    }
}

proof fn lemma_children_fixed(kc: Seq<TopoNode>, ks: Seq<Option<u32>>, s: Seq<Seq<char>>, d: spec_fn(usize) -> TileMeta)
    requires
        normal_children(kc),
        ks.len() >= kc.len(),
        forall|i: int| 0 <= i < kc.len() ==> #[trigger] sized_ok(ks[i]),
        distinct_nonempty(s + topo_names_all(kc)),
    ensures
        normalized_children(kc, ks, s, d) == (kc, ks.take(kc.len() as int), s + topo_names_all(kc)),
    decreases kc,
{
    if kc.len() == 0 {
        assert(s + topo_names_all(kc) == s);
        assert(ks.take(0) == Seq::<Option<u32>>::empty());
    } else {
        let init = kc.drop_last();
        let c = kc.last();
        let i = kc.len() - 1;
        assert(s + topo_names_all(kc) == (s + topo_names_all(init)) + topo_names(c));
        lemma_distinct_prefix(s + topo_names_all(init), topo_names(c));
        assert forall|j: int| 0 <= j < init.len() implies #[trigger] sized_ok(ks[j]) by {
            assert(sized_ok(ks[j]));
        }
        lemma_children_fixed(init, ks, s, d);
        lemma_normal_is_fixed(c, s + topo_names_all(init), d);
        assert(sized_ok(ks[i]));
        assert(super::item::size_at(ks, i) == ks[i]);
        assert(ks.take(i).push(ks[i]) == ks.take(kc.len() as int));
        assert(init.push(c) == kc);
        assert((s + topo_names_all(init)) + topo_names(c) == s + topo_names_all(kc));
    }
}

/// Normalizing a node of normal shape whose names are new, non-empty and distinct gives the
/// node back.
pub proof fn lemma_normal_is_fixed(m: TopoNode, s: Seq<Seq<char>>, d: spec_fn(usize) -> TileMeta)
    requires
        is_normal(m),
        distinct_nonempty(s + topo_names(m)),
    ensures
        normalized_node(m, s, d) == (m, s + topo_names(m)),
    decreases m,
{
    match m {
        TopoNode::Empty => {
            assert(s + topo_names(m) == s);
        },
        TopoNode::Panel(n) => {
            assert(s + seq![n] == s.push(n));
            assert(s.push(n)[s.len() as int] == n);
            assert(!s.contains(n)) by {
                if s.contains(n) {
                    let k = choose|k: int| 0 <= k < s.len() && s[k] == n;
                    assert(s.push(n)[k] == s[k]);
                }
            }
        },
        TopoNode::Tabs(u) => {
            lemma_unique_names_fixed(u, s);
        },
        TopoNode::Tiles(kn, km) => {
            lemma_unique_tiles_fixed(kn, km, s, d);
            assert(km.take(kn.len() as int) == km);
        },
        TopoNode::Split(h, kc, ks) => {
            lemma_children_fixed(kc, ks, s, d);
            assert(ks.take(kc.len() as int) == ks);
        },
    }
}

pub proof fn lemma_normalized_side_normal(side: Option<TopoSide>, seen: Seq<Seq<char>>, d: spec_fn(usize) -> TileMeta)
    ensures
        is_normal_side(normalized_side(side, seen, d).0),
{
    match side {
        Some(s) => {
            lemma_normalized_is_normal(s.item, seen, d);
        },
        None => {},
    }
}

proof fn lemma_side_fixed(side: Option<TopoSide>, s: Seq<Seq<char>>, d: spec_fn(usize) -> TileMeta)
    requires
        is_normal_side(side),
        distinct_nonempty(s + side_names(side)),
    ensures
        normalized_side(side, s, d) == (side, s + side_names(side)),
{
    match side {
        Some(v) => {
            lemma_normal_is_fixed(v.item, s, d);
        },
        None => {
            assert(s + side_names(side) == s);
        },
    }
}

/// Normalizing a normalized topology changes nothing: the normal form is a fixed point, so
/// a topology compares equal to its own normal form.
pub proof fn lemma_normalized_is_fixed(t: TopoLayout, d: spec_fn(usize) -> TileMeta)
    ensures
        normalized_layout(normalized_layout(t, d), d) == normalized_layout(t, d),
{
    lemma_normal_form_ignores_fallback(t, d, d);
}

/// A normalized topology is its own normal form whatever fallback the second pass is given:
/// every tile of it has stored geometry, so no fallback is consulted.
pub proof fn lemma_normal_form_ignores_fallback(t: TopoLayout, d: spec_fn(usize) -> TileMeta, d2: spec_fn(usize) -> TileMeta)
    ensures
        normalized_layout(normalized_layout(t, d), d2) == normalized_layout(t, d),
{
    let e = Seq::<Seq<char>>::empty();
    let n = normalized_layout(t, d);
    lemma_normalized_is_normal(t.center, e, d);
    let (c, s1) = normalized_node(t.center, e, d);
    lemma_normalized_side_normal(t.left, s1, d);
    let (l, s2) = normalized_side(t.left, s1, d);
    lemma_normalized_side_normal(t.right, s2, d);
    let (r, s3) = normalized_side(t.right, s2, d);
    lemma_normalized_side_normal(t.bottom, s3, d);
    lemma_normalized_names_unique(t, d);
    let names = layout_names(n);
    let a = topo_names(c);
    let b = side_names(l);
    let cc = side_names(r);
    let dd = side_names(n.bottom);
    assert(names == a + b + cc + dd);
    lemma_distinct_prefix(a + b + cc, dd);
    lemma_distinct_prefix(a + b, cc);
    lemma_distinct_prefix(a, b);
    assert(e + a == a);
    lemma_normal_is_fixed(c, e, d2);
    lemma_side_fixed(l, a, d2);
    lemma_side_fixed(r, a + b, d2);
    lemma_side_fixed(n.bottom, a + b + cc, d2);
}

/// A topology compares equal to its normal form.
pub proof fn lemma_same_as_normal_form(t: TopoLayout, d: spec_fn(usize) -> TileMeta)
    ensures
        super::topology::same_topology(t, normalized_layout(t, d), d),
{
    lemma_normalized_is_fixed(t, d);
}

/// Whether every name of `names` has an unused panel of that name in the pool.
pub open spec fn all_free(pool: Seq<DockPanel>, used: Seq<bool>, names: Seq<Seq<char>>) -> bool {
    forall|i: int| 0 <= i < names.len() ==> free_index(pool, used, #[trigger] names[i], 0) < pool.len()
}

/// A free index is past the end, or an unused panel with the name at or after `from`.
proof fn lemma_free_index_found(pool: Seq<DockPanel>, used: Seq<bool>, n: Seq<char>, from: int)
    requires
        0 <= from,
    ensures
        free_index(pool, used, n, from) == pool.len()
            || (from <= free_index(pool, used, n, from) < pool.len()
                && pool[free_index(pool, used, n, from)].name@ == n),
    decreases pool.len() - from,
{
    if from < pool.len() && !(!used[from] && pool[from].name@ == n) {
        lemma_free_index_found(pool, used, n, from + 1);
    }
}

/// Using a panel of another name leaves the free panel of `m` where it was.
proof fn lemma_free_index_other(pool: Seq<DockPanel>, used: Seq<bool>, k: int, m: Seq<char>, from: int)
    requires
        0 <= k < pool.len(),
        used.len() == pool.len(),
        pool[k].name@ != m,
        0 <= from,
    ensures
        free_index(pool, used.update(k, true), m, from) == free_index(pool, used, m, from),
    decreases pool.len() - from,
{
    if from < pool.len() {
        if from != k {
            assert(used.update(k, true)[from] == used[from]);
        }
        lemma_free_index_other(pool, used, k, m, from + 1);
    }
}

/// Taking the free panel of `n` leaves the free panel of every other name where it was.
proof fn lemma_take_free_frame(pool: Seq<DockPanel>, used: Seq<bool>, n: Seq<char>, m: Seq<char>)
    requires
        m != n,
        used.len() == pool.len(),
    ensures
        free_index(pool, take_free(pool, used, n).1, m, 0) == free_index(pool, used, m, 0),
        take_free(pool, used, n).1.len() == pool.len(),
{
    lemma_free_index_found(pool, used, n, 0);
    let k = free_index(pool, used, n, 0);
    if k < pool.len() {
        lemma_free_index_other(pool, used, k, m, 0);
    }
}

proof fn lemma_all_free_prefix(pool: Seq<DockPanel>, used: Seq<bool>, a: Seq<Seq<char>>, b: Seq<Seq<char>>)
    requires
        all_free(pool, used, a + b),
    ensures
        all_free(pool, used, a),
        all_free(pool, used, b),
{
    assert forall|i: int| 0 <= i < a.len() implies free_index(pool, used, #[trigger] a[i], 0) < pool.len() by {
        assert((a + b)[i] == a[i]);
    }
    assert forall|i: int| 0 <= i < b.len() implies free_index(pool, used, #[trigger] b[i], 0) < pool.len() by {
        assert((a + b)[a.len() + i] == b[i]);
    }
}

pub proof fn lemma_distinct_suffix(a: Seq<Seq<char>>, b: Seq<Seq<char>>)
    requires
        distinct_nonempty(a + b),
    ensures
        distinct_nonempty(b),
        forall|i: int, j: int| 0 <= i < a.len() && 0 <= j < b.len() ==> #[trigger] a[i] != #[trigger] b[j],
{
    assert forall|i: int| 0 <= i < b.len() implies (#[trigger] b[i]).len() > 0 by {
        assert((a + b)[a.len() + i] == b[i]);
    }
    assert forall|i: int, j: int| 0 <= i < j < b.len() implies #[trigger] b[i] != #[trigger] b[j] by {
        assert((a + b)[a.len() + i] == b[i] && (a + b)[a.len() + j] == b[j]);
    }
    assert forall|i: int, j: int| 0 <= i < a.len() && 0 <= j < b.len() implies #[trigger] a[i] != #[trigger] b[j] by {
        assert((a + b)[i] == a[i] && (a + b)[a.len() + j] == b[j]);
    }
}

/// After `used` becomes `u`, names outside `names` still have their free panel.
pub open spec fn frame_outside(pool: Seq<DockPanel>, used: Seq<bool>, u: Seq<bool>, names: Seq<Seq<char>>) -> bool {
    forall|m: Seq<char>| !names.contains(m) ==> #[trigger] free_index(pool, u, m, 0) == free_index(pool, used, m, 0)
}

proof fn lemma_take_free_all_fidelity(pool: Seq<DockPanel>, used: Seq<bool>, names: Seq<Seq<char>>)
    requires
        distinct_nonempty(names),
        all_free(pool, used, names),
        used.len() == pool.len(),
    ensures
        panel_names(take_free_all(pool, used, names).0) == names,
        take_free_all(pool, used, names).1.len() == pool.len(),
        frame_outside(pool, used, take_free_all(pool, used, names).1, names),
    decreases names.len(),
{
    if names.len() > 0 {
        let init = names.drop_last();
        let n = names.last();
        assert(names == init + seq![n]);
        lemma_distinct_prefix(init, seq![n]);
        lemma_all_free_prefix(pool, used, init, seq![n]);
        lemma_distinct_suffix(init, seq![n]);
        lemma_take_free_all_fidelity(pool, used, init);
        let (ps, u) = take_free_all(pool, used, init);
        assert(!init.contains(n)) by {
            if init.contains(n) {
                let j = choose|j: int| 0 <= j < init.len() && init[j] == n;
                assert(seq![n][0] == n);
            }
        }
        assert(free_index(pool, u, n, 0) == free_index(pool, used, n, 0));
        assert(free_index(pool, used, seq![n][0], 0) < pool.len());
        lemma_free_index_found(pool, u, n, 0);
        let (p, u2) = take_free(pool, u, n);
        assert(p is Some);
        assert(panel_names(ps.push(p->0)) == panel_names(ps).push(n));
        assert forall|m: Seq<char>| !names.contains(m) implies #[trigger] free_index(pool, u2, m, 0) == free_index(pool, used, m, 0) by {
            assert(!init.contains(m)) by {
                if init.contains(m) {
                    let j = choose|j: int| 0 <= j < init.len() && init[j] == m;
                    assert(names[j] == m);
                }
            }
            assert(m != n) by {
                if m == n {
                    assert(names[names.len() - 1] == n);
                }
            }
            lemma_take_free_frame(pool, u, n, m);
        }
    }
}

proof fn lemma_take_free_tiles_fidelity(pool: Seq<DockPanel>, used: Seq<bool>, names: Seq<Seq<char>>, metas: Seq<TileMeta>, d: spec_fn(usize) -> TileMeta)
    requires
        distinct_nonempty(names),
        all_free(pool, used, names),
        metas.len() >= names.len(),
        used.len() == pool.len(),
    ensures
        take_free_tiles(pool, used, names, metas, d).2.len() == pool.len(),
        panel_names(take_free_tiles(pool, used, names, metas, d).0) == names,
        take_free_tiles(pool, used, names, metas, d).1 == metas.take(names.len() as int),
        frame_outside(pool, used, take_free_tiles(pool, used, names, metas, d).2, names),
    decreases names.len(),
{
    if names.len() == 0 {
        assert(metas.take(0) == Seq::<TileMeta>::empty());
    } else {
        let init = names.drop_last();
        let n = names.last();
        assert(names == init + seq![n]);
        lemma_distinct_prefix(init, seq![n]);
        lemma_all_free_prefix(pool, used, init, seq![n]);
        lemma_take_free_tiles_fidelity(pool, used, init, metas, d);
        let (ps, ms, u) = take_free_tiles(pool, used, init, metas, d);
        assert(!init.contains(n)) by {
            if init.contains(n) {
                let j = choose|j: int| 0 <= j < init.len() && init[j] == n;
                lemma_distinct_suffix(init, seq![n]);
                assert(seq![n][0] == n);
            }
        }
        assert(free_index(pool, u, n, 0) == free_index(pool, used, n, 0));
        assert(free_index(pool, used, seq![n][0], 0) < pool.len());
        lemma_free_index_found(pool, u, n, 0);
        let (p, u2) = take_free(pool, u, n);
        assert(p is Some);
        assert(panel_names(ps.push(p->0)) == panel_names(ps).push(n));
        let i = names.len() - 1;
        assert(super::item::meta_at(metas, i, d) == metas[i]);
        assert(metas.take(i).push(metas[i]) == metas.take(names.len() as int));
        assert forall|m: Seq<char>| !names.contains(m) implies #[trigger] free_index(pool, u2, m, 0) == free_index(pool, used, m, 0) by {
            assert(!init.contains(m)) by {
                if init.contains(m) {
                    let j = choose|j: int| 0 <= j < init.len() && init[j] == m;
                    assert(names[j] == m);
                }
            }
            assert(m != n) by {
                if m == n {
                    assert(names[names.len() - 1] == n);
                }
            }
            lemma_take_free_frame(pool, u, n, m);
        }
    }
}

proof fn lemma_resolved_children_fidelity(items: Seq<TopoNode>, sizes: Seq<Option<u32>>, pool: Seq<DockPanel>, used: Seq<bool>, d: spec_fn(usize) -> TileMeta)
    requires
        normal_children(items),
        distinct_nonempty(topo_names_all(items)),
        all_free(pool, used, topo_names_all(items)),
        used.len() == pool.len(),
    ensures
        resolved_children(items, sizes, pool, used, d).2.len() == pool.len(),
        topo_of_all(resolved_children(items, sizes, pool, used, d).0) == items,
        resolved_children(items, sizes, pool, used, d).1 == Seq::new(items.len(), |i: int| super::item::size_at(sizes, i)),
        frame_outside(pool, used, resolved_children(items, sizes, pool, used, d).2, topo_names_all(items)),
    decreases items,
{
    if items.len() == 0 {
        assert(Seq::new(0, |i: int| super::item::size_at(sizes, i)) == Seq::<Option<u32>>::empty());
    } else {
        let init = items.drop_last();
        let c = items.last();
        let a = topo_names_all(init);
        let b = topo_names(c);
        assert(topo_names_all(items) == a + b);
        lemma_distinct_prefix(a, b);
        lemma_distinct_suffix(a, b);
        lemma_all_free_prefix(pool, used, a, b);
        lemma_resolved_children_fidelity(init, sizes, pool, used, d);
        let (cs, ss, u) = resolved_children(init, sizes, pool, used, d);
        assert(all_free(pool, u, b)) by {
            assert forall|j: int| 0 <= j < b.len() implies free_index(pool, u, #[trigger] b[j], 0) < pool.len() by {
                assert(!a.contains(b[j])) by {
                    if a.contains(b[j]) {
                        let i = choose|i: int| 0 <= i < a.len() && a[i] == b[j];
                    }
                }
                assert(free_index(pool, u, b[j], 0) == free_index(pool, used, b[j], 0));
            }
        }
        lemma_resolution_fidelity(c, pool, u, d);
        let (r, u2) = resolved(c, pool, u, d);
        assert(!(r is Empty)) by {
            if r is Empty {
                assert(topo_of(r) == TopoNode::Empty);
            }
        }
        assert(cs.push(r).drop_last() == cs);
        assert(topo_of_all(cs.push(r)) == topo_of_all(cs).push(topo_of(r)));
        assert(init.push(c) == items);
        assert(ss.push(super::item::size_at(sizes, items.len() - 1)) == Seq::new(items.len(), |i: int| super::item::size_at(sizes, i)));
        assert forall|m: Seq<char>| !(a + b).contains(m) implies #[trigger] free_index(pool, u2, m, 0) == free_index(pool, used, m, 0) by {
            assert(!a.contains(m)) by {
                if a.contains(m) {
                    let j = choose|j: int| 0 <= j < a.len() && a[j] == m;
                    assert((a + b)[j] == m);
                }
            }
            assert(!b.contains(m)) by {
                if b.contains(m) {
                    let j = choose|j: int| 0 <= j < b.len() && b[j] == m;
                    assert((a + b)[a.len() + j] == m);
                }
            }
        }
    }
}

/// Resolving a topology node of normal shape, with distinct names that each have an unused
/// panel in the pool, gives a tree whose topology is exactly that node, and leaves the free
/// panels of all other names where they were.
pub proof fn lemma_resolution_fidelity(t: TopoNode, pool: Seq<DockPanel>, used: Seq<bool>, d: spec_fn(usize) -> TileMeta)
    requires
        is_normal(t),
        distinct_nonempty(topo_names(t)),
        all_free(pool, used, topo_names(t)),
        used.len() == pool.len(),
    ensures
        topo_of(resolved(t, pool, used, d).0) == t,
        resolved(t, pool, used, d).1.len() == pool.len(),
        frame_outside(pool, used, resolved(t, pool, used, d).1, topo_names(t)),
    decreases t,
{
    match t {
        TopoNode::Empty => {},
        TopoNode::Panel(n) => {
            assert(topo_names(t)[0] == n);
            lemma_free_index_found(pool, used, n, 0);
            assert(take_free(pool, used, n).1.len() == pool.len());
            assert forall|m: Seq<char>| !topo_names(t).contains(m) implies #[trigger] free_index(pool, resolved(t, pool, used, d).1, m, 0) == free_index(pool, used, m, 0) by {
                assert(m != n) by {
                    if m == n {
                        assert(topo_names(t)[0] == m);
                    }
                }
                lemma_take_free_frame(pool, used, n, m);
            }
        },
        TopoNode::Tabs(u) => {
            lemma_take_free_all_fidelity(pool, used, u);
        },
        TopoNode::Tiles(kn, km) => {
            lemma_take_free_tiles_fidelity(pool, used, kn, km, d);
            assert(km.take(kn.len() as int) == km);
        },
        TopoNode::Split(h, items, sizes) => {
            lemma_resolved_children_fidelity(items, sizes, pool, used, d);
            let (cs, ss, u) = resolved_children(items, sizes, pool, used, d);
            assert(cs.len() == items.len()) by {
                assert(topo_of_all(cs).len() == cs.len()) by {
                    lemma_topo_of_all_len(cs);
                }
            }
            assert(Seq::new(cs.len(), |ix: int| super::item::size_at(ss, ix)) == sizes);
        },
    }
}

pub(crate) proof fn lemma_topo_of_all_len(cs: Seq<DockNode>)
    ensures
        topo_of_all(cs).len() == cs.len(),
    decreases cs.len(),
{
    if cs.len() > 0 {
        lemma_topo_of_all_len(cs.drop_last());
    }
}

/// Whether no two panels of a pool share a name.
pub open spec fn pool_names_distinct(pool: Seq<DockPanel>) -> bool {
    forall|i: int, j: int| 0 <= i < j < pool.len() ==> #[trigger] pool[i].name@ != #[trigger] pool[j].name@
}

/// An unused panel named `x` at `k` makes `x` free.
pub proof fn lemma_free_index_at_most(pool: Seq<DockPanel>, used: Seq<bool>, x: Seq<char>, k: int, from: int)
    requires
        0 <= from <= k < pool.len(),
        k < used.len(),
        !used[k],
        pool[k].name@ == x,
    ensures
        free_index(pool, used, x, from) <= k,
    decreases k - from,
{
    if from < k && !(!used[from] && pool[from].name@ == x) {
        lemma_free_index_at_most(pool, used, x, k, from + 1);
    }
}

/// In a pool of distinct names, taking the free panel of `n` leaves `n` without one.
proof fn lemma_take_free_consumes(pool: Seq<DockPanel>, used: Seq<bool>, n: Seq<char>)
    requires
        used.len() == pool.len(),
        pool_names_distinct(pool),
        free_index(pool, used, n, 0) < pool.len(),
    ensures
        free_index(pool, take_free(pool, used, n).1, n, 0) == pool.len(),
{
    lemma_free_index_found(pool, used, n, 0);
    let k = free_index(pool, used, n, 0);
    let u = used.update(k, true);
    lemma_consumed_from(pool, u, n, k, 0);
}

proof fn lemma_consumed_from(pool: Seq<DockPanel>, u: Seq<bool>, n: Seq<char>, k: int, from: int)
    requires
        u.len() == pool.len(),
        pool_names_distinct(pool),
        0 <= k < pool.len(),
        pool[k].name@ == n,
        u[k],
        0 <= from,
    ensures
        free_index(pool, u, n, from) == pool.len(),
    decreases pool.len() - from,
{
    if from < pool.len() {
        if from != k {
            assert(pool[from].name@ != n) by {
                if from < k {
                    assert(pool[from].name@ != pool[k].name@);
                } else {
                    assert(pool[k].name@ != pool[from].name@);
                }
            }
        }
        lemma_consumed_from(pool, u, n, k, from + 1);
    }
}

/// After resolving names that were all free, in a pool of distinct names, none of them is
/// free any more.
pub open spec fn all_consumed(pool: Seq<DockPanel>, u: Seq<bool>, names: Seq<Seq<char>>) -> bool {
    forall|x: Seq<char>| names.contains(x) ==> #[trigger] free_index(pool, u, x, 0) == pool.len()
}

proof fn lemma_take_free_all_consumes(pool: Seq<DockPanel>, used: Seq<bool>, names: Seq<Seq<char>>)
    requires
        distinct_nonempty(names),
        all_free(pool, used, names),
        used.len() == pool.len(),
        pool_names_distinct(pool),
    ensures
        all_consumed(pool, take_free_all(pool, used, names).1, names),
    decreases names.len(),
{
    if names.len() > 0 {
        let init = names.drop_last();
        let n = names.last();
        assert(names == init + seq![n]);
        lemma_distinct_prefix(init, seq![n]);
        lemma_all_free_prefix(pool, used, init, seq![n]);
        lemma_distinct_suffix(init, seq![n]);
        lemma_take_free_all_fidelity(pool, used, init);
        lemma_take_free_all_consumes(pool, used, init);
        let (ps, u) = take_free_all(pool, used, init);
        assert(!init.contains(n)) by {
            if init.contains(n) {
                let j = choose|j: int| 0 <= j < init.len() && init[j] == n;
                assert(seq![n][0] == n);
            }
        }
        assert(free_index(pool, u, n, 0) == free_index(pool, used, n, 0));
        assert(free_index(pool, used, seq![n][0], 0) < pool.len());
        lemma_take_free_consumes(pool, u, n);
        let u2 = take_free(pool, u, n).1;
        assert forall|x: Seq<char>| names.contains(x) implies #[trigger] free_index(pool, u2, x, 0) == pool.len() by {
            if x != n {
                assert(init.contains(x)) by {
                    let j = choose|j: int| 0 <= j < names.len() && names[j] == x;
                    assert(j < init.len());
                    assert(init[j] == x);
                }
                lemma_take_free_frame(pool, u, n, x);
            }
        }
    }
}

proof fn lemma_take_free_tiles_consumes(pool: Seq<DockPanel>, used: Seq<bool>, names: Seq<Seq<char>>, metas: Seq<TileMeta>, d: spec_fn(usize) -> TileMeta)
    requires
        distinct_nonempty(names),
        all_free(pool, used, names),
        metas.len() >= names.len(),
        used.len() == pool.len(),
        pool_names_distinct(pool),
    ensures
        all_consumed(pool, take_free_tiles(pool, used, names, metas, d).2, names),
    decreases names.len(),
{
    if names.len() > 0 {
        let init = names.drop_last();
        let n = names.last();
        assert(names == init + seq![n]);
        lemma_distinct_prefix(init, seq![n]);
        lemma_all_free_prefix(pool, used, init, seq![n]);
        lemma_distinct_suffix(init, seq![n]);
        lemma_take_free_tiles_fidelity(pool, used, init, metas, d);
        lemma_take_free_tiles_consumes(pool, used, init, metas, d);
        let (ps, ms, u) = take_free_tiles(pool, used, init, metas, d);
        assert(!init.contains(n)) by {
            if init.contains(n) {
                let j = choose|j: int| 0 <= j < init.len() && init[j] == n;
                assert(seq![n][0] == n);
            }
        }
        assert(free_index(pool, u, n, 0) == free_index(pool, used, n, 0));
        assert(free_index(pool, used, seq![n][0], 0) < pool.len());
        lemma_take_free_consumes(pool, u, n);
        let u2 = take_free(pool, u, n).1;
        assert forall|x: Seq<char>| names.contains(x) implies #[trigger] free_index(pool, u2, x, 0) == pool.len() by {
            if x != n {
                assert(init.contains(x)) by {
                    let j = choose|j: int| 0 <= j < names.len() && names[j] == x;
                    assert(j < init.len());
                    assert(init[j] == x);
                }
                lemma_take_free_frame(pool, u, n, x);
            }
        }
    }
}

proof fn lemma_resolved_children_consumes(items: Seq<TopoNode>, sizes: Seq<Option<u32>>, pool: Seq<DockPanel>, used: Seq<bool>, d: spec_fn(usize) -> TileMeta)
    requires
        normal_children(items),
        distinct_nonempty(topo_names_all(items)),
        all_free(pool, used, topo_names_all(items)),
        used.len() == pool.len(),
        pool_names_distinct(pool),
    ensures
        all_consumed(pool, resolved_children(items, sizes, pool, used, d).2, topo_names_all(items)),
    decreases items,
{
    if items.len() > 0 {
        let init = items.drop_last();
        let c = items.last();
        let a = topo_names_all(init);
        let b = topo_names(c);
        assert(topo_names_all(items) == a + b);
        lemma_distinct_prefix(a, b);
        lemma_distinct_suffix(a, b);
        lemma_all_free_prefix(pool, used, a, b);
        lemma_resolved_children_fidelity(init, sizes, pool, used, d);
        lemma_resolved_children_consumes(init, sizes, pool, used, d);
        let (cs, ss, u) = resolved_children(init, sizes, pool, used, d);
        assert(all_free(pool, u, b)) by {
            assert forall|j: int| 0 <= j < b.len() implies free_index(pool, u, #[trigger] b[j], 0) < pool.len() by {
                assert(!a.contains(b[j])) by {
                    if a.contains(b[j]) {
                        let i = choose|i: int| 0 <= i < a.len() && a[i] == b[j];
                    }
                }
                assert(free_index(pool, u, b[j], 0) == free_index(pool, used, b[j], 0));
            }
        }
        lemma_resolution_fidelity(c, pool, u, d);
        lemma_resolution_consumes(c, pool, u, d);
        let u2 = resolved(c, pool, u, d).1;
        assert forall|x: Seq<char>| (a + b).contains(x) implies #[trigger] free_index(pool, u2, x, 0) == pool.len() by {
            let j = choose|j: int| 0 <= j < (a + b).len() && (a + b)[j] == x;
            if j < a.len() {
                assert(a[j] == x);
                assert(a.contains(x));
                assert(!b.contains(x)) by {
                    if b.contains(x) {
                        let i = choose|i: int| 0 <= i < b.len() && b[i] == x;
                    }
                }
                assert(free_index(pool, u2, x, 0) == free_index(pool, u, x, 0));
            } else {
                assert(b[j - a.len()] == x);
                assert(b.contains(x));
            }
        }
    }
}

/// Resolving a topology node under the conditions of [`lemma_resolution_fidelity`], in a
/// pool of distinct names, leaves none of the node's names with a free panel.
pub proof fn lemma_resolution_consumes(t: TopoNode, pool: Seq<DockPanel>, used: Seq<bool>, d: spec_fn(usize) -> TileMeta)
    requires
        is_normal(t),
        distinct_nonempty(topo_names(t)),
        all_free(pool, used, topo_names(t)),
        used.len() == pool.len(),
        pool_names_distinct(pool),
    ensures
        all_consumed(pool, resolved(t, pool, used, d).1, topo_names(t)),
    decreases t,
{
    match t {
        TopoNode::Empty => {},
        TopoNode::Panel(n) => {
            assert(topo_names(t)[0] == n);
            lemma_take_free_consumes(pool, used, n);
            assert forall|x: Seq<char>| topo_names(t).contains(x) implies #[trigger] free_index(pool, resolved(t, pool, used, d).1, x, 0) == pool.len() by {
                let j = choose|j: int| 0 <= j < topo_names(t).len() && topo_names(t)[j] == x;
                assert(j == 0);
            }
        },
        TopoNode::Tabs(u) => {
            lemma_take_free_all_consumes(pool, used, u);
        },
        TopoNode::Tiles(kn, km) => {
            lemma_take_free_tiles_consumes(pool, used, kn, km, d);
        },
        TopoNode::Split(h, items, sizes) => {
            lemma_resolved_children_consumes(items, sizes, pool, used, d);
            lemma_resolved_children_fidelity(items, sizes, pool, used, d);
            let cs = resolved_children(items, sizes, pool, used, d).0;
            lemma_topo_of_all_len(cs);
        },
    }
}

/// Resolving a normalized topology node whose names all have an unused panel in the pool
/// reproduces the normalized topology exactly.
pub proof fn lemma_normalized_topology_resolves_to_itself(t: TopoNode, pool: Seq<DockPanel>, used: Seq<bool>, d: spec_fn(usize) -> TileMeta)
    requires
        all_free(pool, used, topo_names(normalized_node(t, Seq::empty(), d).0)),
        used.len() == pool.len(),
    ensures
        topo_of(resolved(normalized_node(t, Seq::empty(), d).0, pool, used, d).0) == normalized_node(t, Seq::empty(), d).0,
{
    let e = Seq::<Seq<char>>::empty();
    let m = normalized_node(t, e, d).0;
    lemma_normalized_is_normal(t, e, d);
    lemma_normalized_node_names(t, e, d);
    assert(distinct_nonempty(e));
    assert(e + topo_names(m) == topo_names(m));
    lemma_resolution_fidelity(m, pool, used, d);
}

/// A pin rank is at most the number of pinned names.
pub(crate) proof fn lemma_pin_rank_bound(n: Seq<char>, pinned: Seq<String>)
    ensures
        pin_rank(n, pinned) <= pinned.len(),
    decreases pinned.len(),
{
    if pinned.len() > 0 && pinned[0]@ != n {
        lemma_pin_rank_bound(n, pinned.drop_first());
    }
}

/// Every panel whose rank is below `k` is among the panels ranked up to `k`.
proof fn lemma_ranked_upto_contains(items: Seq<DockPanel>, pinned: Seq<String>, k: nat, i: int)
    requires
        0 <= i < items.len(),
        pin_rank(items[i].name@, pinned) < k,
    ensures
        ranked_upto(items, pinned, k).contains(items[i]),
    decreases k,
{
    broadcast use vstd::seq_lib::group_filter_ensures;
    let r = pin_rank(items[i].name@, pinned);
    let prev = ranked_upto(items, pinned, (k - 1) as nat);
    let f = items.filter(|p: DockPanel| pin_rank(p.name@, pinned) == (k - 1) as nat);
    assert(ranked_upto(items, pinned, k) == prev + f);
    if r < k - 1 {
        lemma_ranked_upto_contains(items, pinned, (k - 1) as nat, i);
        let j = prev.index_of(items[i]);
        assert((prev + f)[j] == items[i]);
    } else {
        assert(f.contains(items[i]));
        let j = f.index_of(items[i]);
        assert((prev + f)[prev.len() + j] == items[i]);
    }
}

/// The first index with an identity holds that identity, when it is present.
pub(crate) proof fn lemma_first_id_index(s: Seq<DockPanel>, id: u64)
    requires
        has_id(s, id),
    ensures
        first_id_index(s, id) < s.len(),
        s[first_id_index(s, id) as int].id == id,
    decreases s.len(),
{
    if s[0].id != id {
        let k = choose|k: int| 0 <= k < s.len() && #[trigger] s[k].id == id;
        assert(s.drop_first()[k - 1].id == id);
        lemma_first_id_index(s.drop_first(), id);
    }
}

/// Enforcing pinned leaders keeps the identity of a tab group's active tab.
pub proof fn lemma_enforce_keeps_active_tab(items: Seq<DockPanel>, active_ix: nat, pinned: Seq<String>)
    requires
        active_ix < items.len(),
    ensures
        enforced(DockNode::Tabs { items, active_ix }, pinned).0 matches DockNode::Tabs { items: ordered, active_ix: a }
            && a < ordered.len() && ordered[a as int].id == items[active_ix as int].id,
{
    let x = items[active_ix as int];
    lemma_pin_rank_bound(x.name@, pinned);
    lemma_ranked_upto_contains(items, pinned, pinned.len() + 1, active_ix as int);
    let ordered = pinned_order(items, pinned);
    let j = ordered.index_of(x);
    assert(ordered[j].id == x.id);
    lemma_first_id_index(ordered, x.id);
}


/// Keeping the first new non-empty occurrences of `a + b` keeps those of `a`, then those of
/// `b` among the names not seen by then.
proof fn lemma_unique_names_concat(a: Seq<Seq<char>>, b: Seq<Seq<char>>, seen: Seq<Seq<char>>)
    ensures
        first_unique_names(a + b, seen) == ({
            let (ua, sa) = first_unique_names(a, seen);
            let (ub, sb) = first_unique_names(b, sa);
            (ua + ub, sb)
        }),
    decreases b.len(),
{
    if b.len() == 0 {
        assert(a + b == a);
        assert(first_unique_names(a, seen).0 + Seq::<Seq<char>>::empty() == first_unique_names(a, seen).0);
    } else {
        lemma_unique_names_concat(a, b.drop_last(), seen);
        assert((a + b).drop_last() == a + b.drop_last());
        assert((a + b).last() == b.last());
        let (ua, sa) = first_unique_names(a, seen);
        let ub0 = first_unique_names(b.drop_last(), sa).0;
        assert((ua + ub0).push(b.last()) == ua + ub0.push(b.last()));
    }
}

/// Normalizing a node keeps, in traversal order, exactly the first occurrence of each
/// non-empty name that is not seen yet, and the seen names grow by exactly those.
pub proof fn lemma_normalized_keeps_first_occurrences(node: TopoNode, seen: Seq<Seq<char>>, d: spec_fn(usize) -> TileMeta)
    ensures
        topo_names(normalized_node(node, seen, d).0) == first_unique_names(topo_names(node), seen).0,
        normalized_node(node, seen, d).1 == first_unique_names(topo_names(node), seen).1,
    decreases node,
{
    match node {
        TopoNode::Empty => {
            let e = Seq::<Seq<char>>::empty();
            assert(topo_names(node) == e);
            assert(first_unique_names(e, seen) == (e, seen));
        },
        TopoNode::Panel(n) => {
            let e = Seq::<Seq<char>>::empty();
            assert(seq![n].drop_last() == e);
            assert(seq![n].last() == n);
            assert(first_unique_names(e, seen) == (e, seen));
            assert(e.push(n) == seq![n]);
        },
        TopoNode::Tabs(names) => {
            let u = first_unique_names(names, seen).0;
            if u.len() == 1 {
                assert(seq![u[0]] == u);
            }
        },
        TopoNode::Tiles(names, metas) => {
            super::pins::lemma_unique_tiles_names(names, metas, seen, d);
            let u = first_unique_names(names, seen).0;
            if u.len() == 1 {
                assert(seq![u[0]] == u);
            }
        },
        TopoNode::Split(horizontal, items, sizes) => {
            lemma_children_keep_first_occurrences(items, sizes, seen, d);
            let kc = normalized_children(items, sizes, seen, d).0;
            if kc.len() == 1 {
                assert(kc == seq![kc[0]]);
                lemma_topo_names_all_single(kc[0]);
            }
        },
    }
}

proof fn lemma_children_keep_first_occurrences(items: Seq<TopoNode>, sizes: Seq<Option<u32>>, seen: Seq<Seq<char>>, d: spec_fn(usize) -> TileMeta)
    ensures
        topo_names_all(normalized_children(items, sizes, seen, d).0) == first_unique_names(topo_names_all(items), seen).0,
        normalized_children(items, sizes, seen, d).2 == first_unique_names(topo_names_all(items), seen).1,
    decreases items,
{
    if items.len() > 0 {
        let init = items.drop_last();
        lemma_children_keep_first_occurrences(init, sizes, seen, d);
        let (kc0, ks0, s) = normalized_children(init, sizes, seen, d);
        lemma_normalized_keeps_first_occurrences(items.last(), s, d);
        lemma_unique_names_concat(topo_names_all(init), topo_names(items.last()), seen);
        let (c, s2) = normalized_node(items.last(), s, d);
        if c is Empty {
            assert(topo_names(c) == Seq::<Seq<char>>::empty());
            assert(topo_names_all(kc0) + Seq::<Seq<char>>::empty() == topo_names_all(kc0));
        } else {
            let kc = kc0.push(c);
            assert(kc.drop_last() == kc0);
        }
    }
}

} // verus!
