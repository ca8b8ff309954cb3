//! Restoring a captured named layout: the keys of tab groups name them uniquely, and a
//! restored layout gives back the captured topology and zoom, and its active tabs when the
//! captured topology is in normal form.

use vstd::prelude::*;

use super::area::{found_in_layout, layout_of, side_tree, DockArea, DockRoot, LayoutValue, SideValue};
use super::edit::index_named;
use super::item::{
    add_unique, enforced, has_id, lemma_view_items, panels_of, panels_of_all, view_item,
    view_items, DockItem, DockNode, DockPanel, TileMeta,
};
use super::laws::{
    all_free, distinct_nonempty, lemma_distinct_prefix, lemma_distinct_suffix,
    lemma_free_index_at_most, lemma_normalized_is_normal, lemma_normalized_names_unique,
    lemma_normalized_side_normal, lemma_topo_of_all_len, pool_names_distinct,
};
use super::named::{
    entry_for, kept_zoom, layout_tab_entries, name_view, named_applied, path_text, root_key,
    shown_index, side_tab_entries, side_with_named_active, split_key, tab_entries,
    tab_entries_all, with_named_active, with_named_active_all,
};
use super::pins::{
    lemma_enforce_led, lemma_normalized_layout_pins, lemma_pins_lead_by_topo, lemma_pins_lead_topo,
    pins_lead, side_pins_lead, topo_side_pins_lead,
};
use super::reapply::{
    ids_distinct, lemma_add_unique_all, lemma_apart, lemma_layout_names_are_panel_names,
    lemma_side_step, side_sized,
};
use super::resolve::{
    free_index, has_name, panel_names, resolved, resolved_children, resolver_pool, take_free_all,
    take_free_tiles, topo_of, topo_of_all,
};
use super::shared::{
    has_duplicates, larger_bits, occurrences_of, resolved_layout, resolved_side, topo_layout_of,
    unique_of, DOCK_MIN_BOTTOM_SIZE_BITS, DOCK_MIN_SIDE_SIZE_BITS,
};
use super::topology::{
    layout_names, normalized_layout, normalized_node, normalized_side, same_topology, side_names,
    topo_names, topo_names_all, TopoLayout, TopoSide,
};
use crate::text::{decimal, digit_char};

verus! {

/// Whether every character of `s` is an ASCII digit.
pub open spec fn digits_only(s: Seq<char>) -> bool {
    forall|i: int| 0 <= i < s.len() ==> '0' <= #[trigger] s[i] <= '9'
}

proof fn lemma_digit_char(d: nat)
    requires
        d < 10,
    ensures
        '0' <= digit_char(d) <= '9',
        digit_char(d) as int == 48 + d,
{
}

/// The decimal form of a number is a non-empty run of digits.
proof fn lemma_decimal_digits(n: nat)
    ensures
        decimal(n).len() >= 1,
        n >= 10 ==> decimal(n).len() >= 2,
        digits_only(decimal(n)),
    decreases n,
{
    if n < 10 {
        lemma_digit_char(n);
    } else {
        lemma_decimal_digits(n / 10);
        lemma_digit_char(n % 10);
        let s = decimal(n / 10).push(digit_char(n % 10));
        assert forall|i: int| 0 <= i < s.len() implies '0' <= #[trigger] s[i] <= '9' by {
            if i < decimal(n / 10).len() {
                assert(s[i] == decimal(n / 10)[i]);
            }
        }
    }
}

/// Different numbers have different decimal forms.
proof fn lemma_decimal_injective(a: nat, b: nat)
    requires
        decimal(a) == decimal(b),
    ensures
        a == b,
    decreases a,
{
    lemma_decimal_digits(a);
    lemma_decimal_digits(b);
    if a < 10 && b < 10 {
        lemma_digit_char(a);
        lemma_digit_char(b);
        assert(decimal(a)[0] == digit_char(a));
        assert(decimal(b)[0] == digit_char(b));
    } else if a >= 10 && b >= 10 {
        lemma_digit_char(a % 10);
        lemma_digit_char(b % 10);
        assert(decimal(a).last() == digit_char(a % 10));
        assert(decimal(b).last() == digit_char(b % 10));
        assert(decimal(a).drop_last() == decimal(a / 10));
        assert(decimal(b).drop_last() == decimal(b / 10));
        lemma_decimal_injective(a / 10, b / 10);
    }
}

/// A path's text is a run of digits and dots, non-empty for a non-empty path, with a dot
/// exactly when the path has more than one index.
proof fn lemma_path_text_shape(p: Seq<usize>)
    ensures
        forall|i: int| 0 <= i < path_text(p).len() ==> #[trigger] path_text(p)[i] != ':',
        p.len() >= 1 ==> path_text(p).len() >= 1,
        p.len() == 1 ==> digits_only(path_text(p)),
        p.len() >= 2 ==> path_text(p).contains('.'),
    decreases p.len(),
{
    if p.len() == 1 {
        lemma_decimal_digits(p[0] as nat);
        assert forall|i: int| 0 <= i < path_text(p).len() implies #[trigger] path_text(p)[i] != ':' by {
            assert('0' <= path_text(p)[i] <= '9');
        }
    } else if p.len() >= 2 {
        lemma_path_text_shape(p.drop_last());
        lemma_decimal_digits(p.last() as nat);
        let x = path_text(p.drop_last());
        let dd = decimal(p.last() as nat);
        let s = x + seq!['.'] + dd;
        assert(path_text(p) == s);
        assert(s[x.len() as int] == '.');
        assert forall|i: int| 0 <= i < s.len() implies #[trigger] s[i] != ':' by {
            if i < x.len() {
                assert(s[i] == x[i]);
            } else if i > x.len() {
                assert(s[i] == dd[i - x.len() - 1]);
                assert('0' <= dd[i - x.len() - 1] <= '9');
            }
        }
    }
}

/// Different non-empty paths have different texts.
proof fn lemma_path_text_injective(p: Seq<usize>, q: Seq<usize>)
    requires
        p.len() >= 1,
        q.len() >= 1,
        path_text(p) == path_text(q),
    ensures
        p == q,
    decreases p.len(),
{
    lemma_path_text_shape(p);
    lemma_path_text_shape(q);
    if p.len() == 1 && q.len() == 1 {
        lemma_decimal_injective(p[0] as nat, q[0] as nat);
        assert(p == q);
    } else if p.len() == 1 {
        let j = choose|j: int| 0 <= j < path_text(q).len() && path_text(q)[j] == '.';
        assert('0' <= path_text(p)[j] <= '9');
    } else if q.len() == 1 {
        let j = choose|j: int| 0 <= j < path_text(p).len() && path_text(p)[j] == '.';
        assert('0' <= path_text(q)[j] <= '9');
    } else {
        let x = path_text(p.drop_last());
        let y = path_text(q.drop_last());
        let d1 = decimal(p.last() as nat);
        let d2 = decimal(q.last() as nat);
        lemma_decimal_digits(p.last() as nat);
        lemma_decimal_digits(q.last() as nat);
        let s = path_text(p);
        assert(s == x + seq!['.'] + d1);
        assert(s == y + seq!['.'] + d2);
        assert(s[x.len() as int] == '.');
        assert(s[y.len() as int] == '.');
        if x.len() < y.len() {
            assert(s[y.len() as int] == d1[y.len() - x.len() - 1]);
            assert('0' <= d1[y.len() - x.len() - 1] <= '9');
        } else if y.len() < x.len() {
            assert(s[x.len() as int] == d2[x.len() - y.len() - 1]);
            assert('0' <= d2[x.len() - y.len() - 1] <= '9');
        }
        assert(x.len() == y.len());
        assert(x == s.take(x.len() as int));
        assert(y == s.take(y.len() as int));
        assert(d1 == s.skip((x.len() + 1) as int));
        assert(d2 == s.skip((y.len() + 1) as int));
        lemma_decimal_injective(p.last() as nat, q.last() as nat);
        lemma_path_text_injective(p.drop_last(), q.drop_last());
        assert(p == p.drop_last().push(p.last()));
        assert(q == q.drop_last().push(q.last()));
    }
}

proof fn lemma_root_keys()
    ensures
        forall|r: DockRoot, i: int| 0 <= i < root_key(r).len() ==> #[trigger] root_key(r)[i] != ':',
        forall|r1: DockRoot, r2: DockRoot| #[trigger] root_key(r1) == #[trigger] root_key(r2) ==> r1 == r2,
{
    reveal_strlit("center");
    reveal_strlit("left");
    reveal_strlit("right");
    reveal_strlit("bottom");
    assert forall|r1: DockRoot, r2: DockRoot| #[trigger] root_key(r1) == #[trigger] root_key(r2) implies r1 == r2 by {
        if r1 != r2 {
            assert(root_key(r1)[0] != root_key(r2)[0] || root_key(r1).len() != root_key(r2).len());
        }
    }
}

/// Tab group keys name their group: different roots or paths have different keys.
pub proof fn lemma_split_key_injective(r1: DockRoot, p1: Seq<usize>, r2: DockRoot, p2: Seq<usize>)
    requires
        split_key(r1, p1) == split_key(r2, p2),
    ensures
        r1 == r2,
        p1 == p2,
{
    lemma_root_keys();
    lemma_path_text_shape(p1);
    lemma_path_text_shape(p2);
    let k1 = root_key(r1);
    let k2 = root_key(r2);
    let s = split_key(r1, p1);
    if p1.len() == 0 && p2.len() == 0 {
    } else if p1.len() == 0 {
        assert(s == k2 + seq![':'] + path_text(p2));
        assert(s[k2.len() as int] == ':');
        assert(s == k1);
        assert(k1[k2.len() as int] != ':');
    } else if p2.len() == 0 {
        assert(s == k1 + seq![':'] + path_text(p1));
        assert(s[k1.len() as int] == ':');
        assert(s == k2);
        assert(k2[k1.len() as int] != ':');
    } else {
        let t1 = path_text(p1);
        let t2 = path_text(p2);
        assert(s == k1 + seq![':'] + t1);
        assert(s == k2 + seq![':'] + t2);
        assert(s[k1.len() as int] == ':');
        assert(s[k2.len() as int] == ':');
        if k1.len() < k2.len() {
            assert(s[k1.len() as int] == k2[k1.len() as int]);
        } else if k2.len() < k1.len() {
            assert(s[k2.len() as int] == k1[k2.len() as int]);
        }
        assert(k1 == s.take(k1.len() as int));
        assert(k2 == s.take(k2.len() as int));
        assert(t1 == s.skip((k1.len() + 1) as int));
        assert(t2 == s.skip((k2.len() + 1) as int));
        lemma_path_text_injective(p1, p2);
    }
}

/// Whether no two entries share a key.
pub open spec fn keys_distinct(e: Seq<(Seq<char>, Seq<char>)>) -> bool {
    forall|i: int, j: int| 0 <= i < j < e.len() ==> #[trigger] e[i].0 != #[trigger] e[j].0
}

/// Whether `k` keys a tab group at or below `path` under `root`.
pub open spec fn key_under(k: Seq<char>, root: DockRoot, path: Seq<usize>) -> bool {
    exists|q: Seq<usize>| k == #[trigger] split_key(root, path + q)
}

/// Whether `k` keys a tab group inside one of the first `n` children of the split at `path`.
pub open spec fn key_in_children(k: Seq<char>, root: DockRoot, path: Seq<usize>, n: int) -> bool {
    exists|c: int, q: Seq<usize>| 0 <= c < n && k == #[trigger] split_key(root, path.push(c as usize) + q)
}

/// Whether every split of a node has no more children than `usize` counts.
pub open spec fn splits_fit(node: DockNode) -> bool
    decreases node,
{
    match node {
        DockNode::Split { children, .. } => children.len() <= usize::MAX
            && forall|i: int| 0 <= i < children.len() ==> splits_fit(#[trigger] children[i]),
        _ => true,
    }
}

/// Concatenating entry lists with distinct keys and no key in common keeps keys distinct.
proof fn lemma_keys_distinct_concat(a: Seq<(Seq<char>, Seq<char>)>, b: Seq<(Seq<char>, Seq<char>)>)
    requires
        keys_distinct(a),
        keys_distinct(b),
        forall|i: int, j: int| 0 <= i < a.len() && 0 <= j < b.len() ==> #[trigger] a[i].0 != #[trigger] b[j].0,
    ensures
        keys_distinct(a + b),
{
    assert forall|i: int, j: int| 0 <= i < j < (a + b).len() implies #[trigger] (a + b)[i].0 != #[trigger] (a + b)[j].0 by {
        if j < a.len() {
            assert((a + b)[i] == a[i] && (a + b)[j] == a[j]);
        } else if i >= a.len() {
            assert((a + b)[i] == b[i - a.len()] && (a + b)[j] == b[j - a.len()]);
        } else {
            assert((a + b)[i] == a[i] && (a + b)[j] == b[j - a.len()]);
        }
    }
}

/// The entries of a node placed at `path` under `root` have distinct keys, each keying a
/// group at or below `path`.
proof fn lemma_tab_keys(node: DockNode, root: DockRoot, path: Seq<usize>)
    requires
        splits_fit(node),
    ensures
        keys_distinct(tab_entries(node, root, path)),
        forall|i: int| 0 <= i < tab_entries(node, root, path).len() ==> key_under(#[trigger] tab_entries(node, root, path)[i].0, root, path),
    decreases node,
{
    match node {
        DockNode::Tabs { items, active_ix } => {
            if items.len() > 0 {
                assert(path + Seq::<usize>::empty() == path);
                assert(tab_entries(node, root, path)[0].0 == split_key(root, path + Seq::<usize>::empty()));
            }
        },
        DockNode::Split { children, .. } => {
            lemma_tab_keys_all(children, root, path);
            let e = tab_entries(node, root, path);
            assert forall|i: int| 0 <= i < e.len() implies key_under(#[trigger] e[i].0, root, path) by {
                let (c, q) = choose|c: int, q: Seq<usize>| 0 <= c < children.len() && e[i].0 == #[trigger] split_key(root, path.push(c as usize) + q);
                assert(path.push(c as usize) + q == path + (seq![c as usize] + q));
                assert(e[i].0 == split_key(root, path + (seq![c as usize] + q)));
            }
        },
        _ => {},
    }
}

proof fn lemma_tab_keys_all(cs: Seq<DockNode>, root: DockRoot, path: Seq<usize>)
    requires
        cs.len() <= usize::MAX,
        forall|i: int| 0 <= i < cs.len() ==> splits_fit(#[trigger] cs[i]),
    ensures
        keys_distinct(tab_entries_all(cs, root, path)),
        forall|i: int| 0 <= i < tab_entries_all(cs, root, path).len()
            ==> key_in_children(#[trigger] tab_entries_all(cs, root, path)[i].0, root, path, cs.len() as int),
    decreases cs,
{
    if cs.len() > 0 {
        let n = cs.len() - 1;
        let a = tab_entries_all(cs.drop_last(), root, path);
        let cp = path.push(n as usize);
        let b = tab_entries(cs.last(), root, cp);
        assert forall|i: int| 0 <= i < cs.drop_last().len() implies splits_fit(#[trigger] cs.drop_last()[i]) by {
            assert(cs.drop_last()[i] == cs[i]);
        }
        assert(splits_fit(cs[n as int]));
        lemma_tab_keys_all(cs.drop_last(), root, path);
        lemma_tab_keys(cs.last(), root, cp);
        assert forall|i: int, j: int| 0 <= i < a.len() && 0 <= j < b.len() implies #[trigger] a[i].0 != #[trigger] b[j].0 by {
            let (c, q) = choose|c: int, q: Seq<usize>| 0 <= c < n && a[i].0 == #[trigger] split_key(root, path.push(c as usize) + q);
            let q2 = choose|q2: Seq<usize>| b[j].0 == #[trigger] split_key(root, cp + q2);
            if a[i].0 == b[j].0 {
                lemma_split_key_injective(root, path.push(c as usize) + q, root, cp + q2);
                assert((path.push(c as usize) + q)[path.len() as int] == c as usize);
                assert((cp + q2)[path.len() as int] == n as usize);
            }
        }
        lemma_keys_distinct_concat(a, b);
        let e = tab_entries_all(cs, root, path);
        assert(e == a + b);
        assert forall|i: int| 0 <= i < e.len() implies key_in_children(#[trigger] e[i].0, root, path, cs.len() as int) by {
            if i < a.len() {
                assert(e[i] == a[i]);
                assert(key_in_children(a[i].0, root, path, n as int));
                let (c, q) = choose|c: int, q: Seq<usize>| 0 <= c < n && a[i].0 == #[trigger] split_key(root, path.push(c as usize) + q);
                assert(0 <= c < cs.len());
            } else {
                assert(e[i] == b[i - a.len()]);
                assert(key_under(b[i - a.len()].0, root, cp));
                let q2 = choose|q2: Seq<usize>| b[i - a.len()].0 == #[trigger] split_key(root, cp + q2);
                assert(e[i].0 == split_key(root, path.push(n as usize) + q2));
            }
        }
    }
}

/// The entry of a distinct key is found under that key.
proof fn lemma_entry_for_member(e: Seq<(Seq<char>, Seq<char>)>, i: int)
    requires
        keys_distinct(e),
        0 <= i < e.len(),
    ensures
        entry_for(e, e[i].0) == Some(e[i].1),
    decreases e.len(),
{
    if i < e.len() - 1 {
        let init = e.drop_last();
        assert(e[i] == init[i]);
        assert(e.last().0 != e[i].0) by {
            assert(e[e.len() - 1] == e.last());
        }
        assert(keys_distinct(init)) by {
            assert forall|a: int, b: int| 0 <= a < b < init.len() implies #[trigger] init[a].0 != #[trigger] init[b].0 by {
                assert(init[a] == e[a] && init[b] == e[b]);
            }
        }
        lemma_entry_for_member(init, i);
    }
}

/// Whether panels sharing an identity share a name.
pub open spec fn identity_names(s: Seq<DockPanel>) -> bool {
    forall|i: int, j: int| 0 <= i < s.len() && 0 <= j < s.len() && #[trigger] s[i].id == #[trigger] s[j].id ==> s[i].name@ == s[j].name@
}

/// Whether every panel of `a` is a panel of `b`.
pub open spec fn panels_within(a: Seq<DockPanel>, b: Seq<DockPanel>) -> bool {
    forall|k: int| 0 <= k < a.len() ==> b.contains(#[trigger] a[k])
}

pub(crate) proof fn lemma_identity_names_within(a: Seq<DockPanel>, b: Seq<DockPanel>)
    requires
        identity_names(b),
        panels_within(a, b),
    ensures
        identity_names(a),
{
    assert forall|i: int, j: int| 0 <= i < a.len() && 0 <= j < a.len() && #[trigger] a[i].id == #[trigger] a[j].id implies a[i].name@ == a[j].name@ by {
        assert(b.contains(a[i]) && b.contains(a[j]));
        let x = b.index_of(a[i]);
        let y = b.index_of(a[j]);
        assert(b[x].id == b[y].id);
    }
}

/// A resolver pool draws its panels from its input, names each at most once, and has every
/// name the input has.
proof fn lemma_pool_members(ps: Seq<DockPanel>)
    ensures
        panels_within(resolver_pool(ps), ps),
        pool_names_distinct(resolver_pool(ps)),
        forall|n: Seq<char>| has_name(ps, n) ==> #[trigger] has_name(resolver_pool(ps), n),
    decreases ps.len(),
{
    if ps.len() > 0 {
        let init = ps.drop_last();
        lemma_pool_members(init);
        let pool = resolver_pool(init);
        let x = ps.last();
        assert forall|k: int| 0 <= k < resolver_pool(ps).len() implies ps.contains(#[trigger] resolver_pool(ps)[k]) by {
            if k < pool.len() {
                assert(resolver_pool(ps)[k] == pool[k]);
                assert(init.contains(pool[k]));
                let j = init.index_of(pool[k]);
                assert(ps[j] == init[j]);
            } else {
                assert(resolver_pool(ps)[k] == x);
                assert(ps[ps.len() - 1] == x);
            }
        }
        if !has_name(pool, x.name@) {
            let r = pool.push(x);
            assert forall|i: int, j: int| 0 <= i < j < r.len() implies #[trigger] r[i].name@ != #[trigger] r[j].name@ by {
                if j == r.len() - 1 {
                    assert(r[i] == pool[i]);
                } else {
                    assert(r[i] == pool[i] && r[j] == pool[j]);
                }
            }
        }
        assert forall|n: Seq<char>| has_name(ps, n) implies #[trigger] has_name(resolver_pool(ps), n) by {
            let k = choose|k: int| 0 <= k < ps.len() && #[trigger] ps[k].name@ == n;
            if k < ps.len() - 1 {
                assert(init[k].name@ == n);
                assert(has_name(init, n));
                assert(has_name(pool, n));
                let j = choose|j: int| 0 <= j < pool.len() && #[trigger] pool[j].name@ == n;
                assert(resolver_pool(ps)[j] == pool[j]);
            } else if !has_name(pool, x.name@) {
                assert(resolver_pool(ps)[pool.len() as int] == x);
            }
        }
    }
}

/// Collecting distinct identities keeps panels of `acc` and `s` only, and every identity
/// of `s`.
proof fn lemma_add_unique_members(acc: Seq<DockPanel>, s: Seq<DockPanel>)
    ensures
        panels_within(add_unique(acc, s), acc + s),
        forall|k: int| 0 <= k < s.len() ==> has_id(add_unique(acc, s), #[trigger] s[k].id),
    decreases s.len(),
{
    if s.len() > 0 {
        let init = s.drop_last();
        lemma_add_unique_members(acc, init);
        let a = add_unique(acc, init);
        let r = add_unique(acc, s);
        assert forall|k: int| 0 <= k < r.len() implies (acc + s).contains(#[trigger] r[k]) by {
            if k < a.len() {
                assert(r[k] == a[k]);
                assert((acc + init).contains(a[k]));
                let j = (acc + init).index_of(a[k]);
                assert((acc + s)[j] == (acc + init)[j]);
            } else {
                assert(r[k] == s.last());
                assert((acc + s)[(acc + s).len() - 1] == s.last());
            }
        }
        assert forall|k: int| 0 <= k < s.len() implies has_id(r, #[trigger] s[k].id) by {
            if k < s.len() - 1 {
                assert(init[k] == s[k]);
                assert(has_id(a, init[k].id));
                let j = choose|j: int| 0 <= j < a.len() && #[trigger] a[j].id == s[k].id;
                assert(r[j] == a[j]);
            } else if !has_id(a, s.last().id) {
                assert(r[a.len() as int] == s.last());
            }
        }
    }
}

proof fn lemma_free_index_range(pool: Seq<DockPanel>, used: Seq<bool>, n: Seq<char>, from: int)
    requires
        0 <= from,
    ensures
        from <= super::resolve::free_index(pool, used, n, from) || super::resolve::free_index(pool, used, n, from) == pool.len(),
        super::resolve::free_index(pool, used, n, from) <= pool.len() || from > pool.len(),
    decreases pool.len() - from,
{
    if from < pool.len() {
        lemma_free_index_range(pool, used, n, from + 1);
    }
}

proof fn lemma_take_free_all_within(pool: Seq<DockPanel>, used: Seq<bool>, names: Seq<Seq<char>>)
    ensures
        panels_within(take_free_all(pool, used, names).0, pool),
    decreases names.len(),
{
    if names.len() > 0 {
        lemma_take_free_all_within(pool, used, names.drop_last());
        let (ps, u) = take_free_all(pool, used, names.drop_last());
        let r = take_free_all(pool, used, names).0;
        assert forall|k: int| 0 <= k < r.len() implies pool.contains(#[trigger] r[k]) by {
            if k < ps.len() {
                assert(r[k] == ps[k]);
            } else {
                let i = super::resolve::free_index(pool, u, names.last(), 0);
                lemma_free_index_range(pool, u, names.last(), 0);
                assert(r[k] == pool[i]);
            }
        }
    }
}

proof fn lemma_take_free_tiles_within(pool: Seq<DockPanel>, used: Seq<bool>, names: Seq<Seq<char>>, metas: Seq<TileMeta>, d: spec_fn(usize) -> TileMeta)
    ensures
        panels_within(take_free_tiles(pool, used, names, metas, d).0, pool),
    decreases names.len(),
{
    if names.len() > 0 {
        lemma_take_free_tiles_within(pool, used, names.drop_last(), metas, d);
        let (ps, ms, u) = take_free_tiles(pool, used, names.drop_last(), metas, d);
        let r = take_free_tiles(pool, used, names, metas, d).0;
        assert forall|k: int| 0 <= k < r.len() implies pool.contains(#[trigger] r[k]) by {
            if k < ps.len() {
                assert(r[k] == ps[k]);
            } else {
                let i = super::resolve::free_index(pool, u, names.last(), 0);
                lemma_free_index_range(pool, u, names.last(), 0);
                assert(r[k] == pool[i]);
            }
        }
    }
}

/// Every panel of a resolved tree comes from the pool.
proof fn lemma_resolved_within(t: super::topology::TopoNode, pool: Seq<DockPanel>, used: Seq<bool>, d: spec_fn(usize) -> TileMeta)
    ensures
        panels_within(panels_of(resolved(t, pool, used, d).0), pool),
    decreases t,
{
    match t {
        super::topology::TopoNode::Panel(n) => {
            let i = super::resolve::free_index(pool, used, n, 0);
            lemma_free_index_range(pool, used, n, 0);
            if i < pool.len() {
                assert(panels_of(resolved(t, pool, used, d).0)[0] == pool[i]);
            }
        },
        super::topology::TopoNode::Tabs(names) => {
            lemma_take_free_all_within(pool, used, names);
            let ps = take_free_all(pool, used, names).0;
            if ps.len() == 1 {
                assert(panels_of(resolved(t, pool, used, d).0)[0] == ps[0]);
            }
        },
        super::topology::TopoNode::Tiles(names, metas) => {
            lemma_take_free_tiles_within(pool, used, names, metas, d);
            let ps = take_free_tiles(pool, used, names, metas, d).0;
            if ps.len() == 1 {
                assert(panels_of(resolved(t, pool, used, d).0)[0] == ps[0]);
            }
        },
        super::topology::TopoNode::Split(h, items, sizes) => {
            lemma_resolved_children_within(items, sizes, pool, used, d);
            let cs = resolved_children(items, sizes, pool, used, d).0;
            if cs.len() == 1 {
                assert(panels_of_all(cs) == panels_of_all(cs.drop_last()) + panels_of(cs[0]));
                assert(panels_of_all(cs.drop_last()) == Seq::<DockPanel>::empty());
                assert(panels_of_all(cs) == panels_of(cs[0]));
            }
        },
        _ => {},
    }
}

proof fn lemma_resolved_children_within(
    items: Seq<super::topology::TopoNode>,
    sizes: Seq<Option<u32>>,
    pool: Seq<DockPanel>,
    used: Seq<bool>,
    d: spec_fn(usize) -> TileMeta,
)
    ensures
        panels_within(panels_of_all(resolved_children(items, sizes, pool, used, d).0), pool),
    decreases items,
{
    if items.len() > 0 {
        lemma_resolved_children_within(items.drop_last(), sizes, pool, used, d);
        let (cs, ss, u) = resolved_children(items.drop_last(), sizes, pool, used, d);
        lemma_resolved_within(items.last(), pool, u, d);
        let c = resolved(items.last(), pool, u, d).0;
        if !(c is Empty) {
            let r = cs.push(c);
            assert(r.drop_last() == cs);
            let a = panels_of_all(cs);
            let b = panels_of(c);
            assert(panels_of_all(r) == a + b);
            assert forall|k: int| 0 <= k < (a + b).len() implies pool.contains(#[trigger] (a + b)[k]) by {
                if k < a.len() {
                    assert((a + b)[k] == a[k]);
                } else {
                    assert((a + b)[k] == b[k - a.len()]);
                }
            }
        }
    }
}

/// With distinct names, the first panel named like the one at `k` is the one at `k`.
proof fn lemma_index_named(s: Seq<DockPanel>, k: int)
    requires
        0 <= k < s.len(),
        pool_names_distinct(s),
    ensures
        index_named(s, s[k].name@) == k,
    decreases s.len(),
{
    if k > 0 {
        let t = s.drop_first();
        assert(s[0].name@ != s[k].name@);
        assert(t[k - 1] == s[k]);
        assert(pool_names_distinct(t)) by {
            assert forall|i: int, j: int| 0 <= i < j < t.len() implies #[trigger] t[i].name@ != #[trigger] t[j].name@ by {
                assert(t[i] == s[i + 1] && t[j] == s[j + 1]);
            }
        }
        lemma_index_named(t, k - 1);
    }
}

pub(crate) proof fn lemma_within_concat(a: Seq<DockPanel>, b: Seq<DockPanel>)
    ensures
        panels_within(a, a + b),
        panels_within(b, a + b),
{
    assert forall|k: int| 0 <= k < a.len() implies (a + b).contains(#[trigger] a[k]) by {
        assert((a + b)[k] == a[k]);
    }
    assert forall|k: int| 0 <= k < b.len() implies (a + b).contains(#[trigger] b[k]) by {
        assert((a + b)[a.len() + k] == b[k]);
    }
}

/// Activating the recorded tab of each group of a tree shaped like `sn` keeps the tree's
/// topology and gives back the active-tab entries of `sn`.
proof fn lemma_restored_entries(rn: DockNode, sn: DockNode, root: DockRoot, path: Seq<usize>, e: Seq<(Seq<char>, Seq<char>)>)
    requires
        topo_of(rn) == topo_of(sn),
        distinct_nonempty(topo_names(topo_of(sn))),
        keys_distinct(e),
        forall|i: int| 0 <= i < tab_entries(sn, root, path).len() ==> e.contains(#[trigger] tab_entries(sn, root, path)[i]),
    ensures
        topo_of(with_named_active(rn, root, path, e)) == topo_of(rn),
        panels_of(with_named_active(rn, root, path, e)) == panels_of(rn),
        tab_entries(with_named_active(rn, root, path, e), root, path) == tab_entries(sn, root, path),
    decreases rn,
{
    match rn {
        DockNode::Tabs { items: ri, active_ix: ra } => {
            assert(sn is Tabs);
            let si = sn->Tabs_items;
            let sa = sn->Tabs_active_ix;
            assert(panel_names(ri) == panel_names(si));
            assert(ri.len() == panel_names(ri).len());
            assert(si.len() == panel_names(si).len());
            if si.len() > 0 {
                let k = split_key(root, path);
                let sh = shown_index(si.len(), sa);
                let name = si[sh].name@;
                assert(tab_entries(sn, root, path)[0] == (k, name));
                assert(e.contains((k, name)));
                let j = e.index_of((k, name));
                lemma_entry_for_member(e, j);
                assert(pool_names_distinct(ri)) by {
                    assert forall|a: int, b: int| 0 <= a < b < ri.len() implies #[trigger] ri[a].name@ != #[trigger] ri[b].name@ by {
                        assert(panel_names(ri)[a] == ri[a].name@ && panel_names(ri)[b] == ri[b].name@);
                    }
                }
                assert(ri[sh].name@ == panel_names(ri)[sh]);
                assert(si[sh].name@ == panel_names(si)[sh]);
                lemma_index_named(ri, sh);
                assert(with_named_active(rn, root, path, e) == DockNode::Tabs { items: ri, active_ix: sh as nat });
            }
        },
        DockNode::Split { horizontal, children: rcs, sizes: rsz } => {
            assert(sn is Split);
            let scs = sn->children;
            lemma_topo_of_all_len(rcs);
            lemma_topo_of_all_len(scs);
            assert(tab_entries(sn, root, path) == tab_entries_all(scs, root, path));
            lemma_restored_entries_all(rcs, scs, root, path, e);
        },
        _ => {
            let topo = topo_of(sn);
            assert(!(topo is Tabs) && !(topo is Split));
            assert(tab_entries(sn, root, path) == Seq::<(Seq<char>, Seq<char>)>::empty());
        },
    }
}

proof fn lemma_restored_entries_all(rcs: Seq<DockNode>, scs: Seq<DockNode>, root: DockRoot, path: Seq<usize>, e: Seq<(Seq<char>, Seq<char>)>)
    requires
        topo_of_all(rcs) == topo_of_all(scs),
        rcs.len() == scs.len(),
        distinct_nonempty(topo_names_all(topo_of_all(scs))),
        keys_distinct(e),
        forall|i: int| 0 <= i < tab_entries_all(scs, root, path).len() ==> e.contains(#[trigger] tab_entries_all(scs, root, path)[i]),
    ensures
        with_named_active_all(rcs, root, path, e).len() == rcs.len(),
        topo_of_all(with_named_active_all(rcs, root, path, e)) == topo_of_all(rcs),
        panels_of_all(with_named_active_all(rcs, root, path, e)) == panels_of_all(rcs),
        tab_entries_all(with_named_active_all(rcs, root, path, e), root, path) == tab_entries_all(scs, root, path),
    decreases rcs,
{
    if rcs.len() > 0 {
        let n = rcs.len() - 1;
        let cp = path.push(n as usize);
        let r0 = rcs.drop_last();
        let s0 = scs.drop_last();
        let ts = topo_of_all(scs);
        assert(ts.drop_last() == topo_of_all(s0));
        assert(ts.last() == topo_of(scs.last()));
        assert(topo_of_all(rcs).drop_last() == topo_of_all(r0));
        assert(topo_of_all(rcs).last() == topo_of(rcs.last()));
        lemma_distinct_prefix(topo_names_all(topo_of_all(s0)), topo_names(topo_of(scs.last())));
        lemma_distinct_suffix(topo_names_all(topo_of_all(s0)), topo_names(topo_of(scs.last())));
        let a = tab_entries_all(s0, root, path);
        let b = tab_entries(scs.last(), root, cp);
        assert(tab_entries_all(scs, root, path) == a + b);
        assert forall|i: int| 0 <= i < a.len() implies e.contains(#[trigger] a[i]) by {
            assert((a + b)[i] == a[i]);
        }
        assert forall|i: int| 0 <= i < b.len() implies e.contains(#[trigger] b[i]) by {
            assert((a + b)[a.len() + i] == b[i]);
        }
        lemma_restored_entries_all(r0, s0, root, path, e);
        lemma_restored_entries(rcs.last(), scs.last(), root, cp, e);
        let w = with_named_active_all(rcs, root, path, e);
        let w0 = with_named_active_all(r0, root, path, e);
        let x = with_named_active(rcs.last(), root, cp, e);
        assert(w == w0.push(x));
        assert(w.drop_last() == w0);
        assert(w.last() == x);
        assert(topo_of_all(w) == topo_of_all(w0).push(topo_of(x)));
        assert(panels_of_all(w) == panels_of_all(w0) + panels_of(x));
        assert(tab_entries_all(w, root, path) == tab_entries_all(w0, root, path) + tab_entries(x, root, cp));
    }
}

/// A live tree's splits hold no more children than `usize` counts.
proof fn lemma_item_fits(x: DockItem)
    ensures
        splits_fit(view_item(x)),
    decreases x,
{
    match x {
        DockItem::Split { horizontal, items, sizes } => {
            lemma_view_items(items@);
            let cs = view_items(items@);
            assert(items@.len() == items.len());
            assert forall|i: int| 0 <= i < cs.len() implies splits_fit(#[trigger] cs[i]) by {
                lemma_item_fits(items@[i]);
            }
        },
        _ => {},
    }
}

/// A panel named `n` is found exactly when some panel carries that name.
proof fn lemma_first_named(s: Seq<DockPanel>, n: Seq<char>)
    ensures
        (super::item::first_named(s, n) is Some) == has_name(s, n),
    decreases s.len(),
{
    if s.len() > 0 {
        lemma_first_named(s.drop_first(), n);
        if has_name(s, n) && s[0].name@ != n {
            let k = choose|k: int| 0 <= k < s.len() && #[trigger] s[k].name@ == n;
            assert(s.drop_first()[k - 1].name@ == n);
        }
        if has_name(s.drop_first(), n) {
            let k = choose|k: int| 0 <= k < s.drop_first().len() && #[trigger] s.drop_first()[k].name@ == n;
            assert(s[k + 1].name@ == n);
        }
    }
}

proof fn lemma_has_name_concat(a: Seq<DockPanel>, b: Seq<DockPanel>, n: Seq<char>)
    ensures
        has_name(a + b, n) == (has_name(a, n) || has_name(b, n)),
{
    if has_name(a + b, n) {
        let k = choose|k: int| 0 <= k < (a + b).len() && #[trigger] (a + b)[k].name@ == n;
        if k < a.len() {
            assert(a[k] == (a + b)[k]);
        } else {
            assert(b[k - a.len()] == (a + b)[k]);
        }
    }
    if has_name(a, n) {
        let k = choose|k: int| 0 <= k < a.len() && #[trigger] a[k].name@ == n;
        assert((a + b)[k] == a[k]);
    }
    if has_name(b, n) {
        let k = choose|k: int| 0 <= k < b.len() && #[trigger] b[k].name@ == n;
        assert((a + b)[a.len() + k] == b[k]);
    }
}

/// A layout finds a panel by name exactly when one of its occurrences carries that name.
proof fn lemma_found_in_layout(l: super::area::LayoutValue, n: Seq<char>)
    ensures
        (super::area::found_in_layout(l, n) is Some) == has_name(super::shared::occurrences_of(l), n),
{
    let a = panels_of(l.0);
    let b = panels_of(super::area::side_tree(l.1));
    let c = panels_of(super::area::side_tree(l.2));
    let e = panels_of(super::area::side_tree(l.3));
    lemma_first_named(a, n);
    lemma_first_named(b, n);
    lemma_first_named(c, n);
    lemma_first_named(e, n);
    lemma_has_name_concat(a, b, n);
    lemma_has_name_concat(a + b, c, n);
    lemma_has_name_concat(a + b + c, e, n);
}

/// The names of panels, as a sequence, hold a name exactly when some panel carries it.
proof fn lemma_panel_names_contains(s: Seq<DockPanel>, n: Seq<char>)
    ensures
        panel_names(s).contains(n) == has_name(s, n),
{
    if panel_names(s).contains(n) {
        let k = choose|k: int| 0 <= k < panel_names(s).len() && panel_names(s)[k] == n;
        assert(s[k].name@ == n);
    }
    if has_name(s, n) {
        let k = choose|k: int| 0 <= k < s.len() && #[trigger] s[k].name@ == n;
        assert(panel_names(s)[k] == n);
    }
}

/// The pool a restore draws from holds only panels of the dock and the supplied ones, with
/// every name they carry when panels sharing an identity share a name.
proof fn lemma_restore_pool(occ: Seq<DockPanel>, additional: Seq<DockPanel>)
    requires
        identity_names(occ + additional),
    ensures
        panels_within(resolver_pool(add_unique(Seq::empty(), occ) + additional), occ + additional),
        pool_names_distinct(resolver_pool(add_unique(Seq::empty(), occ) + additional)),
        forall|n: Seq<char>| has_name(occ + additional, n) ==> #[trigger] has_name(resolver_pool(add_unique(Seq::empty(), occ) + additional), n),
{
    let u = add_unique(Seq::empty(), occ);
    let ua = u + additional;
    let pool = resolver_pool(ua);
    lemma_add_unique_members(Seq::empty(), occ);
    assert(Seq::<DockPanel>::empty() + occ == occ);
    lemma_pool_members(ua);
    assert forall|k: int| 0 <= k < pool.len() implies (occ + additional).contains(#[trigger] pool[k]) by {
        assert(ua.contains(pool[k]));
        let j = ua.index_of(pool[k]);
        if j < u.len() {
            assert(ua[j] == u[j]);
            assert(occ.contains(u[j]));
            let i = occ.index_of(u[j]);
            assert((occ + additional)[i] == occ[i]);
        } else {
            assert(ua[j] == additional[j - u.len()]);
            assert((occ + additional)[occ.len() + j - u.len()] == additional[j - u.len()]);
        }
    }
    assert forall|n: Seq<char>| has_name(occ + additional, n) implies #[trigger] has_name(pool, n) by {
        let k = choose|k: int| 0 <= k < (occ + additional).len() && #[trigger] (occ + additional)[k].name@ == n;
        if k < occ.len() {
            assert((occ + additional)[k] == occ[k]);
            assert(has_id(u, occ[k].id));
            let j = choose|j: int| 0 <= j < u.len() && #[trigger] u[j].id == occ[k].id;
            assert(occ.contains(u[j]));
            let i = occ.index_of(u[j]);
            assert((occ + additional)[i] == occ[i]);
            assert((occ + additional)[i].id == (occ + additional)[k].id);
            assert(ua[j] == u[j]);
            assert(has_name(ua, n));
        } else {
            assert((occ + additional)[k] == additional[k - occ.len()]);
            assert(ua[u.len() + k - occ.len()] == additional[k - occ.len()]);
            assert(has_name(ua, n));
        }
    }
}

/// Keys under different roots differ.
proof fn lemma_keys_apart(k1: Seq<char>, r1: DockRoot, k2: Seq<char>, r2: DockRoot)
    requires
        r1 != r2,
        key_under(k1, r1, Seq::empty()),
        key_under(k2, r2, Seq::empty()),
    ensures
        k1 != k2,
{
    let e = Seq::<usize>::empty();
    let q1 = choose|q: Seq<usize>| k1 == #[trigger] split_key(r1, e + q);
    let q2 = choose|q: Seq<usize>| k2 == #[trigger] split_key(r2, e + q);
    if k1 == k2 {
        lemma_split_key_injective(r1, e + q1, r2, e + q2);
    }
}

/// The entries of a layout have distinct keys.
proof fn lemma_layout_keys(l: super::area::LayoutValue)
    requires
        splits_fit(l.0),
        splits_fit(side_tree(l.1)),
        splits_fit(side_tree(l.2)),
        splits_fit(side_tree(l.3)),
    ensures
        keys_distinct(super::named::layout_tab_entries(l)),
{
    let e = Seq::<usize>::empty();
    let a = tab_entries(l.0, DockRoot::Center, e);
    let b = side_tab_entries(l.1, DockRoot::Left);
    let c = side_tab_entries(l.2, DockRoot::Right);
    let z = side_tab_entries(l.3, DockRoot::Bottom);
    lemma_tab_keys(l.0, DockRoot::Center, e);
    lemma_tab_keys(side_tree(l.1), DockRoot::Left, e);
    lemma_tab_keys(side_tree(l.2), DockRoot::Right, e);
    lemma_tab_keys(side_tree(l.3), DockRoot::Bottom, e);
    assert(b == tab_entries(side_tree(l.1), DockRoot::Left, e)) by {
        if l.1 is None {
            assert(tab_entries(DockNode::Empty, DockRoot::Left, e) == Seq::<(Seq<char>, Seq<char>)>::empty());
        }
    }
    assert(c == tab_entries(side_tree(l.2), DockRoot::Right, e)) by {
        if l.2 is None {
            assert(tab_entries(DockNode::Empty, DockRoot::Right, e) == Seq::<(Seq<char>, Seq<char>)>::empty());
        }
    }
    assert(z == tab_entries(side_tree(l.3), DockRoot::Bottom, e)) by {
        if l.3 is None {
            assert(tab_entries(DockNode::Empty, DockRoot::Bottom, e) == Seq::<(Seq<char>, Seq<char>)>::empty());
        }
    }
    assert forall|i: int, j: int| 0 <= i < a.len() && 0 <= j < b.len() implies #[trigger] a[i].0 != #[trigger] b[j].0 by {
        assert(key_under(a[i].0, DockRoot::Center, e) && key_under(b[j].0, DockRoot::Left, e));
        lemma_keys_apart(a[i].0, DockRoot::Center, b[j].0, DockRoot::Left);
    }
    lemma_keys_distinct_concat(a, b);
    let ab = a + b;
    assert forall|i: int, j: int| 0 <= i < ab.len() && 0 <= j < c.len() implies #[trigger] ab[i].0 != #[trigger] c[j].0 by {
        assert(key_under(c[j].0, DockRoot::Right, e));
        if i < a.len() {
            assert(ab[i] == a[i]);
            assert(key_under(a[i].0, DockRoot::Center, e));
            lemma_keys_apart(a[i].0, DockRoot::Center, c[j].0, DockRoot::Right);
        } else {
            assert(ab[i] == b[i - a.len()]);
            assert(key_under(b[i - a.len()].0, DockRoot::Left, e));
            lemma_keys_apart(b[i - a.len()].0, DockRoot::Left, c[j].0, DockRoot::Right);
        }
    }
    lemma_keys_distinct_concat(ab, c);
    let abc = ab + c;
    assert forall|i: int, j: int| 0 <= i < abc.len() && 0 <= j < z.len() implies #[trigger] abc[i].0 != #[trigger] z[j].0 by {
        assert(key_under(z[j].0, DockRoot::Bottom, e));
        if i < a.len() {
            assert(abc[i] == a[i]);
            assert(key_under(a[i].0, DockRoot::Center, e));
            lemma_keys_apart(a[i].0, DockRoot::Center, z[j].0, DockRoot::Bottom);
        } else if i < ab.len() {
            assert(abc[i] == b[i - a.len()]);
            assert(key_under(b[i - a.len()].0, DockRoot::Left, e));
            lemma_keys_apart(b[i - a.len()].0, DockRoot::Left, z[j].0, DockRoot::Bottom);
        } else {
            assert(abc[i] == c[i - ab.len()]);
            assert(key_under(c[i - ab.len()].0, DockRoot::Right, e));
            lemma_keys_apart(c[i - ab.len()].0, DockRoot::Right, z[j].0, DockRoot::Bottom);
        }
    }
    lemma_keys_distinct_concat(abc, z);
}

/// Resolving a topology in normal form, each of whose names has a panel in a pool of
/// distinct names, gives back that topology root by root; side sizes are raised to their
/// smallest sizes.
proof fn lemma_layout_resolves(n: TopoLayout, pool: Seq<DockPanel>, d: spec_fn(usize) -> TileMeta)
    requires
        normalized_layout(n, d) == n,
        pool_names_distinct(pool),
        forall|x: Seq<char>| layout_names(n).contains(x) ==> #[trigger] has_name(pool, x),
    ensures
        ({
            let m0 = Seq::new(pool.len(), |k: int| false);
            let (c, m1) = resolved(n.center, pool, m0, d);
            let (left, m2) = resolved_side(n.left, pool, m1, DOCK_MIN_SIDE_SIZE_BITS, d);
            let (right, m3) = resolved_side(n.right, pool, m2, DOCK_MIN_SIDE_SIZE_BITS, d);
            let (bottom, m4) = resolved_side(n.bottom, pool, m3, DOCK_MIN_BOTTOM_SIZE_BITS, d);
            &&& topo_of(c) == n.center
            &&& side_resolves(n.left, left, DOCK_MIN_SIDE_SIZE_BITS)
            &&& side_resolves(n.right, right, DOCK_MIN_SIDE_SIZE_BITS)
            &&& side_resolves(n.bottom, bottom, DOCK_MIN_BOTTOM_SIZE_BITS)
        }),
{
    let e = Seq::<Seq<char>>::empty();
    let (c0, s1) = normalized_node(n.center, e, d);
    let (l0, s2) = normalized_side(n.left, s1, d);
    let (r0, s3) = normalized_side(n.right, s2, d);
    let (b0, s4) = normalized_side(n.bottom, s3, d);
    assert(c0 == n.center && l0 == n.left && r0 == n.right && b0 == n.bottom);
    lemma_normalized_names_unique(n, d);
    lemma_normalized_is_normal(n.center, e, d);
    lemma_normalized_side_normal(n.left, s1, d);
    lemma_normalized_side_normal(n.right, s2, d);
    lemma_normalized_side_normal(n.bottom, s3, d);
    let na = topo_names(c0);
    let nb = side_names(l0);
    let nc = side_names(r0);
    let nd = side_names(b0);
    assert(layout_names(n) == na + nb + nc + nd);
    lemma_distinct_prefix(na + nb + nc, nd);
    lemma_distinct_prefix(na + nb, nc);
    lemma_distinct_prefix(na, nb);
    assert(distinct_nonempty(nb)) by { lemma_distinct_suffix(na, nb); }
    assert(distinct_nonempty(nc)) by { lemma_distinct_suffix(na + nb, nc); }
    assert(distinct_nonempty(nd)) by { lemma_distinct_suffix(na + nb + nc, nd); }
    lemma_apart(na, nb);
    lemma_apart(na + nb, nc);
    lemma_apart(na + nb + nc, nd);
    let m0 = Seq::new(pool.len(), |k: int| false);
    assert forall|x: Seq<char>| #[trigger] layout_names(n).contains(x) implies free_index(pool, m0, x, 0) < pool.len() by {
        assert(has_name(pool, x));
        let k = choose|k: int| 0 <= k < pool.len() && #[trigger] pool[k].name@ == x;
        lemma_free_index_at_most(pool, m0, x, k, 0);
    }
    assert forall|x: Seq<char>| (na + nb).contains(x) implies #[trigger] (na + nb + nc).contains(x) by {
        let j = choose|j: int| 0 <= j < (na + nb).len() && (na + nb)[j] == x;
        assert((na + nb + nc)[j] == x);
    }
    assert forall|x: Seq<char>| (na + nb + nc).contains(x) implies #[trigger] layout_names(n).contains(x) by {
        let j = choose|j: int| 0 <= j < (na + nb + nc).len() && (na + nb + nc)[j] == x;
        assert(layout_names(n)[j] == x);
    }
    assert forall|x: Seq<char>| na.contains(x) implies #[trigger] (na + nb).contains(x) by {
        let j = choose|j: int| 0 <= j < na.len() && na[j] == x;
        assert((na + nb)[j] == x);
    }
    assert forall|x: Seq<char>| nb.contains(x) implies #[trigger] (na + nb).contains(x) by {
        let j = choose|j: int| 0 <= j < nb.len() && nb[j] == x;
        assert((na + nb)[na.len() + j] == x);
    }
    assert forall|x: Seq<char>| nc.contains(x) implies #[trigger] (na + nb + nc).contains(x) by {
        let j = choose|j: int| 0 <= j < nc.len() && nc[j] == x;
        assert((na + nb + nc)[(na + nb).len() + j] == x);
    }
    assert forall|x: Seq<char>| nd.contains(x) implies #[trigger] layout_names(n).contains(x) by {
        let j = choose|j: int| 0 <= j < nd.len() && nd[j] == x;
        assert(layout_names(n)[(na + nb + nc).len() + j] == x);
    }
    // the center
    assert(all_free(pool, m0, na)) by {
        assert forall|i: int| 0 <= i < na.len() implies free_index(pool, m0, #[trigger] na[i], 0) < pool.len() by {
            let x = na[i];
            assert(na.contains(x));
            assert((na + nb).contains(x));
            assert((na + nb + nc).contains(x));
            assert(layout_names(n).contains(x));
        }
    }
    assert(e + na == na);
    super::laws::lemma_resolution_fidelity(c0, pool, m0, d);
    let (c, m1) = resolved(c0, pool, m0, d);
    // the left side
    assert(all_free(pool, m1, nb)) by {
        assert forall|i: int| 0 <= i < nb.len() implies free_index(pool, m1, #[trigger] nb[i], 0) < pool.len() by {
            let x = nb[i];
            assert(nb.contains(x));
            assert(!na.contains(x));
            assert((na + nb).contains(x));
            assert((na + nb + nc).contains(x));
            assert(layout_names(n).contains(x));
            assert(free_index(pool, m1, x, 0) == free_index(pool, m0, x, 0));
        }
    }
    lemma_side_step(l0, pool, m1, DOCK_MIN_SIDE_SIZE_BITS, d);
    let (left, m2) = resolved_side(l0, pool, m1, DOCK_MIN_SIDE_SIZE_BITS, d);
    // the right side
    assert(all_free(pool, m2, nc)) by {
        assert forall|i: int| 0 <= i < nc.len() implies free_index(pool, m2, #[trigger] nc[i], 0) < pool.len() by {
            let x = nc[i];
            assert(nc.contains(x));
            assert(!(na + nb).contains(x));
            assert(!na.contains(x));
            assert(!nb.contains(x));
            assert((na + nb + nc).contains(x));
            assert(layout_names(n).contains(x));
            assert(free_index(pool, m1, x, 0) == free_index(pool, m0, x, 0));
            assert(free_index(pool, m2, x, 0) == free_index(pool, m1, x, 0));
        }
    }
    lemma_side_step(r0, pool, m2, DOCK_MIN_SIDE_SIZE_BITS, d);
    let (right, m3) = resolved_side(r0, pool, m2, DOCK_MIN_SIDE_SIZE_BITS, d);
    // the bottom side
    assert(all_free(pool, m3, nd)) by {
        assert forall|i: int| 0 <= i < nd.len() implies free_index(pool, m3, #[trigger] nd[i], 0) < pool.len() by {
            let x = nd[i];
            assert(nd.contains(x));
            assert(!(na + nb + nc).contains(x));
            assert(!(na + nb).contains(x));
            assert(!na.contains(x));
            assert(!nb.contains(x));
            assert(!nc.contains(x));
            assert(layout_names(n).contains(x));
            assert(free_index(pool, m1, x, 0) == free_index(pool, m0, x, 0));
            assert(free_index(pool, m2, x, 0) == free_index(pool, m1, x, 0));
            assert(free_index(pool, m3, x, 0) == free_index(pool, m2, x, 0));
        }
    }
    lemma_side_step(b0, pool, m3, DOCK_MIN_BOTTOM_SIZE_BITS, d);
}

/// Whether a resolved side has the tree, raised size and openness of its topology side.
pub open spec fn side_resolves(t: Option<super::topology::TopoSide>, s: Option<super::area::SideValue>, min: u32) -> bool {
    match t {
        None => s is None,
        Some(ts) => s matches Some(v) && topo_of(v.0) == ts.item && v.1 == larger_bits(ts.size, min) && v.2 == ts.open,
    }
}

/// The topology of a side.
pub open spec fn topo_side_of(s: Option<SideValue>) -> Option<TopoSide> {
    match s {
        Some(v) => Some(TopoSide { item: topo_of(v.0), size: v.1, open: v.2 }),
        None => None,
    }
}

/// A side with its recorded tabs activated and pinned leaders enforced.
pub open spec fn side_restored(s: Option<SideValue>, root: DockRoot, e: Seq<(Seq<char>, Seq<char>)>, pins: Seq<String>) -> Option<SideValue> {
    match side_with_named_active(s, root, e) {
        Some(x) => Some((enforced(x.0, pins).0, x.1, x.2)),
        None => None,
    }
}

/// A root resolved with the captured shape, its recorded tabs activated and pinned leaders
/// enforced, has the captured topology and active-tab entries.
proof fn lemma_root_restored(rn: DockNode, sn: DockNode, root: DockRoot, e: Seq<(Seq<char>, Seq<char>)>, pins: Seq<String>)
    requires
        topo_of(rn) == topo_of(sn),
        distinct_nonempty(topo_names(topo_of(sn))),
        identity_names(panels_of(rn)),
        pins_lead(sn, pins),
        keys_distinct(e),
        forall|i: int| 0 <= i < tab_entries(sn, root, Seq::empty()).len() ==> e.contains(#[trigger] tab_entries(sn, root, Seq::empty())[i]),
    ensures
        topo_of(enforced(with_named_active(rn, root, Seq::empty(), e), pins).0) == topo_of(sn),
        tab_entries(enforced(with_named_active(rn, root, Seq::empty(), e), pins).0, root, Seq::empty()) == tab_entries(sn, root, Seq::empty()),
{
    let p = Seq::<usize>::empty();
    lemma_restored_entries(rn, sn, root, p, e);
    let w = with_named_active(rn, root, p, e);
    lemma_pins_lead_by_topo(w, sn, pins);
    lemma_enforce_led(w, pins, root, p);
}

proof fn lemma_side_restored(sv: Option<SideValue>, rv: Option<SideValue>, root: DockRoot, e: Seq<(Seq<char>, Seq<char>)>, pins: Seq<String>, min: u32)
    requires
        side_resolves(topo_side_of(sv), rv, min),
        side_sized(sv, min),
        distinct_nonempty(side_names(topo_side_of(sv))),
        rv matches Some(v) ==> identity_names(panels_of(v.0)),
        side_pins_lead(sv, pins),
        keys_distinct(e),
        forall|i: int| 0 <= i < side_tab_entries(sv, root).len() ==> e.contains(#[trigger] side_tab_entries(sv, root)[i]),
    ensures
        topo_side_of(side_restored(rv, root, e, pins)) == topo_side_of(sv),
        side_tab_entries(side_restored(rv, root, e, pins), root) == side_tab_entries(sv, root),
{
    match sv {
        Some(v) => {
            let r = rv->0;
            assert(side_tab_entries(sv, root) == tab_entries(v.0, root, Seq::empty()));
            lemma_root_restored(r.0, v.0, root, e, pins);
        },
        None => {},
    }
}

/// A named layout captured from one dock and restored onto another gives back the captured
/// topology, active tabs and zoom.
///
/// The captured dock's topology is in normal form, its side docks are at least their
/// smallest sizes, its zoomed panel, if any, is present, and the panels the other dock pins
/// already lead it; the dock restored onto, with the supplied panels, holds a panel of every
/// captured name, and there panels sharing an identity share a name.
pub proof fn lemma_named_layout_restores(src: DockArea, dst: DockArea, additional: Seq<DockPanel>, d: spec_fn(usize) -> TileMeta)
    requires
        normalized_layout(topo_layout_of(layout_of(src)), d) == topo_layout_of(layout_of(src)),
        side_sized(layout_of(src).1, DOCK_MIN_SIDE_SIZE_BITS),
        side_sized(layout_of(src).2, DOCK_MIN_SIDE_SIZE_BITS),
        side_sized(layout_of(src).3, DOCK_MIN_BOTTOM_SIZE_BITS),
        src.zoomed_panel matches Some(z) ==> found_in_layout(layout_of(src), z@) is Some,
        identity_names(occurrences_of(layout_of(dst)) + additional),
        forall|k: int| 0 <= k < occurrences_of(layout_of(src)).len()
            ==> has_name(occurrences_of(layout_of(dst)) + additional, #[trigger] occurrences_of(layout_of(src))[k].name@),
        pins_lead(layout_of(src).0, dst.pinned_leading_panels@),
        side_pins_lead(layout_of(src).1, dst.pinned_leading_panels@),
        side_pins_lead(layout_of(src).2, dst.pinned_leading_panels@),
        side_pins_lead(layout_of(src).3, dst.pinned_leading_panels@),
    ensures
        ({
            let n = normalized_layout(topo_layout_of(layout_of(src)), d);
            let next = named_applied(layout_of(dst), n, layout_tab_entries(layout_of(src)), additional, dst.pinned_leading_panels@, d);
            &&& topo_layout_of(next) == n
            &&& layout_tab_entries(next) == layout_tab_entries(layout_of(src))
            &&& kept_zoom(next, name_view(src.zoomed_panel)) == name_view(src.zoomed_panel)
        }),
{
    let s = layout_of(src);
    let l = layout_of(dst);
    let t = topo_layout_of(s);
    let n = t;
    let pins = dst.pinned_leading_panels@;
    let occ = occurrences_of(s);
    let oa = occurrences_of(l) + additional;
    // the pool
    lemma_restore_pool(occurrences_of(l), additional);
    let pool = resolver_pool(unique_of(l) + additional);
    lemma_layout_names_are_panel_names(s);
    assert forall|x: Seq<char>| layout_names(n).contains(x) implies #[trigger] has_name(pool, x) by {
        let k = choose|k: int| 0 <= k < layout_names(n).len() && layout_names(n)[k] == x;
        assert(panel_names(occ)[k] == occ[k].name@);
        assert(has_name(oa, occ[k].name@));
    }
    lemma_layout_resolves(n, pool, d);
    let m0 = Seq::new(pool.len(), |k: int| false);
    let (c, m1) = resolved(n.center, pool, m0, d);
    let (left, m2) = resolved_side(n.left, pool, m1, DOCK_MIN_SIDE_SIZE_BITS, d);
    let (right, m3) = resolved_side(n.right, pool, m2, DOCK_MIN_SIDE_SIZE_BITS, d);
    let (bottom, m4) = resolved_side(n.bottom, pool, m3, DOCK_MIN_BOTTOM_SIZE_BITS, d);
    assert(resolved_layout(l, n, additional, false, d) == (c, left, right, bottom));
    // identities within the resolved trees
    lemma_identity_names_within(pool, oa);
    lemma_resolved_within(n.center, pool, m0, d);
    lemma_identity_names_within(panels_of(c), pool);
    if let Some(ts) = n.left {
        lemma_resolved_within(ts.item, pool, m1, d);
        lemma_identity_names_within(panels_of((left->0).0), pool);
    }
    if let Some(ts) = n.right {
        lemma_resolved_within(ts.item, pool, m2, d);
        lemma_identity_names_within(panels_of((right->0).0), pool);
    }
    if let Some(ts) = n.bottom {
        lemma_resolved_within(ts.item, pool, m3, d);
        lemma_identity_names_within(panels_of((bottom->0).0), pool);
    }
    // the recorded entries
    let e = layout_tab_entries(s);
    let root_path = Seq::<usize>::empty();
    lemma_item_fits(src.center);
    if let Some(side) = src.left { lemma_item_fits(side.item); }
    if let Some(side) = src.right { lemma_item_fits(side.item); }
    if let Some(side) = src.bottom { lemma_item_fits(side.item); }
    lemma_layout_keys(s);
    let ea = tab_entries(s.0, DockRoot::Center, root_path);
    let eb = side_tab_entries(s.1, DockRoot::Left);
    let ec = side_tab_entries(s.2, DockRoot::Right);
    let ed = side_tab_entries(s.3, DockRoot::Bottom);
    assert(e == ea + eb + ec + ed);
    assert forall|i: int| 0 <= i < ea.len() implies e.contains(#[trigger] ea[i]) by {
        assert(e[i] == ea[i]);
    }
    assert forall|i: int| 0 <= i < eb.len() implies e.contains(#[trigger] eb[i]) by {
        assert(e[ea.len() + i] == eb[i]);
    }
    assert forall|i: int| 0 <= i < ec.len() implies e.contains(#[trigger] ec[i]) by {
        assert(e[ea.len() + eb.len() + i] == ec[i]);
    }
    assert forall|i: int| 0 <= i < ed.len() implies e.contains(#[trigger] ed[i]) by {
        assert(e[ea.len() + eb.len() + ec.len() + i] == ed[i]);
    }
    // distinct names root by root
    lemma_normalized_names_unique(t, d);
    let na = topo_names(n.center);
    let nb = side_names(n.left);
    let nc = side_names(n.right);
    let nd = side_names(n.bottom);
    assert(layout_names(n) == na + nb + nc + nd);
    lemma_distinct_prefix(na + nb + nc, nd);
    lemma_distinct_prefix(na + nb, nc);
    lemma_distinct_prefix(na, nb);
    lemma_distinct_suffix(na, nb);
    lemma_distinct_suffix(na + nb, nc);
    lemma_distinct_suffix(na + nb + nc, nd);
    // each root restored
    assert(t.left == topo_side_of(s.1) && t.right == topo_side_of(s.2) && t.bottom == topo_side_of(s.3));
    lemma_root_restored(c, s.0, DockRoot::Center, e, pins);
    lemma_side_restored(s.1, left, DockRoot::Left, e, pins, DOCK_MIN_SIDE_SIZE_BITS);
    lemma_side_restored(s.2, right, DockRoot::Right, e, pins, DOCK_MIN_SIDE_SIZE_BITS);
    lemma_side_restored(s.3, bottom, DockRoot::Bottom, e, pins, DOCK_MIN_BOTTOM_SIZE_BITS);
    let next = named_applied(l, n, e, additional, pins, d);
    assert(next == (
        enforced(with_named_active(c, DockRoot::Center, root_path, e), pins).0,
        side_restored(left, DockRoot::Left, e, pins),
        side_restored(right, DockRoot::Right, e, pins),
        side_restored(bottom, DockRoot::Bottom, e, pins),
    ));
    assert(topo_layout_of(next) == n);
    assert(layout_tab_entries(next) == e);
    // the zoom
    if let Some(z) = src.zoomed_panel {
        lemma_found_in_layout(s, z@);
        lemma_panel_names_contains(occ, z@);
        lemma_layout_names_are_panel_names(next);
        lemma_panel_names_contains(occurrences_of(next), z@);
        lemma_found_in_layout(next, z@);
    }
}

/// A dock whose topology is in normal form, whose side docks are at least their smallest
/// sizes, whose zoomed panel is present, whose pinned panels lead and whose panels sharing an
/// identity share a name, restoring the named layout it captured finds the topology, the
/// active tabs and the zoom unchanged and no duplicates, so it reports no change.
pub proof fn lemma_own_named_layout_is_a_fixed_point(a: DockArea, d: spec_fn(usize) -> TileMeta)
    requires
        normalized_layout(topo_layout_of(layout_of(a)), d) == topo_layout_of(layout_of(a)),
        side_sized(layout_of(a).1, DOCK_MIN_SIDE_SIZE_BITS),
        side_sized(layout_of(a).2, DOCK_MIN_SIDE_SIZE_BITS),
        side_sized(layout_of(a).3, DOCK_MIN_BOTTOM_SIZE_BITS),
        a.zoomed_panel matches Some(z) ==> found_in_layout(layout_of(a), z@) is Some,
        identity_names(occurrences_of(layout_of(a))),
        pins_lead(layout_of(a).0, a.pinned_leading_panels@),
        side_pins_lead(layout_of(a).1, a.pinned_leading_panels@),
        side_pins_lead(layout_of(a).2, a.pinned_leading_panels@),
        side_pins_lead(layout_of(a).3, a.pinned_leading_panels@),
    ensures
        ({
            let l = layout_of(a);
            let n = normalized_layout(topo_layout_of(l), d);
            let next = named_applied(l, n, layout_tab_entries(l), Seq::empty(), a.pinned_leading_panels@, d);
            &&& same_topology(normalized_layout(topo_layout_of(l), d), normalized_layout(topo_layout_of(next), d), d)
            &&& layout_tab_entries(l) == layout_tab_entries(next)
            &&& name_view(a.zoomed_panel) == kept_zoom(next, name_view(a.zoomed_panel))
            &&& !has_duplicates(l)
        }),
{
    let l = layout_of(a);
    let t = topo_layout_of(l);
    let occ = occurrences_of(l);
    let none = Seq::<DockPanel>::empty();
    assert(occ + none == occ);
    assert forall|k: int| 0 <= k < occ.len() implies has_name(occ + none, #[trigger] occ[k].name@) by {
        assert((occ + none)[k] == occ[k]);
    }
    lemma_named_layout_restores(a, a, none, d);
    let next = named_applied(l, t, layout_tab_entries(l), none, a.pinned_leading_panels@, d);
    super::laws::lemma_same_as_normal_form(t, d);
    // no duplicates: names are distinct, and so are identities
    lemma_normalized_names_unique(t, d);
    lemma_layout_names_are_panel_names(l);
    assert(ids_distinct(Seq::<DockPanel>::empty() + occ)) by {
        assert(Seq::<DockPanel>::empty() + occ == occ);
        assert forall|i: int, j: int| 0 <= i < j < occ.len() implies #[trigger] occ[i].id != #[trigger] occ[j].id by {
            assert(panel_names(occ)[i] == occ[i].name@ && panel_names(occ)[j] == occ[j].name@);
        }
    }
    lemma_add_unique_all(Seq::empty(), occ);
    assert(unique_of(l) == occ);
    assert(!super::shared::names_repeat(occ)) by {
        if super::shared::names_repeat(occ) {
            let (i, j) = choose|i: int, j: int| 0 <= i < j < occ.len() && #[trigger] occ[i].name@ == #[trigger] occ[j].name@;
            assert(panel_names(occ)[i] == occ[i].name@ && panel_names(occ)[j] == occ[j].name@);
        }
    }
}

/// Activating recorded tabs never changes the topology.
proof fn lemma_topo_named_active(node: DockNode, root: DockRoot, path: Seq<usize>, e: Seq<(Seq<char>, Seq<char>)>)
    ensures
        topo_of(with_named_active(node, root, path, e)) == topo_of(node),
    decreases node,
{
    if let DockNode::Split { horizontal, children, sizes } = node {
        lemma_topo_named_active_all(children, root, path, e);
    }
}

proof fn lemma_topo_named_active_all(cs: Seq<DockNode>, root: DockRoot, path: Seq<usize>, e: Seq<(Seq<char>, Seq<char>)>)
    ensures
        with_named_active_all(cs, root, path, e).len() == cs.len(),
        topo_of_all(with_named_active_all(cs, root, path, e)) == topo_of_all(cs),
    decreases cs,
{
    if cs.len() > 0 {
        lemma_topo_named_active_all(cs.drop_last(), root, path, e);
        lemma_topo_named_active(cs.last(), root, path.push((cs.len() - 1) as usize), e);
        let w = with_named_active_all(cs, root, path, e);
        assert(w.drop_last() == with_named_active_all(cs.drop_last(), root, path, e));
    }
}

/// The topology of a resolved side, its recorded tabs activated and pinned leaders enforced,
/// where they lead its topology.
proof fn lemma_side_topology_restored(ts: Option<TopoSide>, rv: Option<SideValue>, root: DockRoot, e: Seq<(Seq<char>, Seq<char>)>, pins: Seq<String>, min: u32)
    requires
        side_resolves(ts, rv, min),
        topo_side_pins_lead(ts, pins),
        ts matches Some(t) ==> t.size >= min,
    ensures
        topo_side_of(side_restored(rv, root, e, pins)) == ts,
{
    if let Some(t) = ts {
        let v = rv->0;
        let w = with_named_active(v.0, root, Seq::empty(), e);
        lemma_topo_named_active(v.0, root, Seq::empty(), e);
        lemma_pins_lead_topo(w, pins);
        lemma_enforce_led(w, pins, root, Seq::empty());
    }
}

/// A named layout captured from one dock that names each panel once, restored onto another,
/// installs the captured topology and zoom, whatever the shape of the captured tree.
///
/// The captured dock's side docks are at least their smallest sizes, its zoomed panel, if
/// any, is present, and the panels the other dock pins already lead it; the dock restored
/// onto, with the supplied panels, holds a panel of every captured name, and there panels
/// sharing an identity share a name.
pub proof fn lemma_named_layout_restores_topology(src: DockArea, dst: DockArea, additional: Seq<DockPanel>, d: spec_fn(usize) -> TileMeta)
    requires
        super::reapply::names_distinct(occurrences_of(layout_of(src))),
        forall|k: int| 0 <= k < occurrences_of(layout_of(src)).len() ==> (#[trigger] occurrences_of(layout_of(src))[k]).name@.len() > 0,
        side_sized(layout_of(src).1, DOCK_MIN_SIDE_SIZE_BITS),
        side_sized(layout_of(src).2, DOCK_MIN_SIDE_SIZE_BITS),
        side_sized(layout_of(src).3, DOCK_MIN_BOTTOM_SIZE_BITS),
        src.zoomed_panel matches Some(z) ==> found_in_layout(layout_of(src), z@) is Some,
        identity_names(occurrences_of(layout_of(dst)) + additional),
        forall|k: int| 0 <= k < occurrences_of(layout_of(src)).len()
            ==> has_name(occurrences_of(layout_of(dst)) + additional, #[trigger] occurrences_of(layout_of(src))[k].name@),
        pins_lead(layout_of(src).0, dst.pinned_leading_panels@),
        side_pins_lead(layout_of(src).1, dst.pinned_leading_panels@),
        side_pins_lead(layout_of(src).2, dst.pinned_leading_panels@),
        side_pins_lead(layout_of(src).3, dst.pinned_leading_panels@),
    ensures
        ({
            let n = normalized_layout(topo_layout_of(layout_of(src)), d);
            let next = named_applied(layout_of(dst), n, layout_tab_entries(layout_of(src)), additional, dst.pinned_leading_panels@, d);
            &&& topo_layout_of(next) == n
            &&& kept_zoom(next, name_view(src.zoomed_panel)) == name_view(src.zoomed_panel)
        }),
{
    let s = layout_of(src);
    let l = layout_of(dst);
    let t = topo_layout_of(s);
    let n = normalized_layout(t, d);
    let pins = dst.pinned_leading_panels@;
    let occ = occurrences_of(s);
    let oa = occurrences_of(l) + additional;
    // names of the captured topology
    lemma_layout_names_are_panel_names(s);
    assert(distinct_nonempty(layout_names(t))) by {
        assert forall|i: int| 0 <= i < layout_names(t).len() implies (#[trigger] layout_names(t)[i]).len() > 0 by {
            assert(panel_names(occ)[i] == occ[i].name@);
        }
        assert forall|i: int, j: int| 0 <= i < j < layout_names(t).len() implies #[trigger] layout_names(t)[i] != #[trigger] layout_names(t)[j] by {
            assert(panel_names(occ)[i] == occ[i].name@ && panel_names(occ)[j] == occ[j].name@);
        }
    }
    super::laws::lemma_normalized_layout_cover(t, d);
    super::laws::lemma_normalized_is_fixed(t, d);
    // the pool
    lemma_restore_pool(occurrences_of(l), additional);
    let pool = resolver_pool(unique_of(l) + additional);
    assert forall|x: Seq<char>| layout_names(n).contains(x) implies #[trigger] has_name(pool, x) by {
        assert(layout_names(t).contains(x));
        let k = choose|k: int| 0 <= k < layout_names(t).len() && layout_names(t)[k] == x;
        assert(panel_names(occ)[k] == occ[k].name@);
        assert(has_name(oa, occ[k].name@));
    }
    lemma_layout_resolves(n, pool, d);
    let m0 = Seq::new(pool.len(), |k: int| false);
    let (c, m1) = resolved(n.center, pool, m0, d);
    let (left, m2) = resolved_side(n.left, pool, m1, DOCK_MIN_SIDE_SIZE_BITS, d);
    let (right, m3) = resolved_side(n.right, pool, m2, DOCK_MIN_SIDE_SIZE_BITS, d);
    let (bottom, m4) = resolved_side(n.bottom, pool, m3, DOCK_MIN_BOTTOM_SIZE_BITS, d);
    assert(resolved_layout(l, n, additional, false, d) == (c, left, right, bottom));
    // pinned panels lead the normalized topology
    lemma_pins_lead_topo(s.0, pins);
    if let Some(v) = s.1 { lemma_pins_lead_topo(v.0, pins); }
    if let Some(v) = s.2 { lemma_pins_lead_topo(v.0, pins); }
    if let Some(v) = s.3 { lemma_pins_lead_topo(v.0, pins); }
    lemma_normalized_layout_pins(t, pins, d);
    // each root installs its captured topology
    let e = layout_tab_entries(s);
    let root_path = Seq::<usize>::empty();
    let w = with_named_active(c, DockRoot::Center, root_path, e);
    lemma_topo_named_active(c, DockRoot::Center, root_path, e);
    lemma_pins_lead_topo(w, pins);
    lemma_enforce_led(w, pins, DockRoot::Center, root_path);
    lemma_side_topology_restored(n.left, left, DockRoot::Left, e, pins, DOCK_MIN_SIDE_SIZE_BITS);
    lemma_side_topology_restored(n.right, right, DockRoot::Right, e, pins, DOCK_MIN_SIDE_SIZE_BITS);
    lemma_side_topology_restored(n.bottom, bottom, DockRoot::Bottom, e, pins, DOCK_MIN_BOTTOM_SIZE_BITS);
    let next = named_applied(l, n, e, additional, pins, d);
    assert(next == (
        enforced(w, pins).0,
        side_restored(left, DockRoot::Left, e, pins),
        side_restored(right, DockRoot::Right, e, pins),
        side_restored(bottom, DockRoot::Bottom, e, pins),
    ));
    assert(topo_layout_of(next) == n);
    // the zoom
    if let Some(z) = src.zoomed_panel {
        lemma_found_in_layout(s, z@);
        lemma_panel_names_contains(occ, z@);
        let k = choose|k: int| 0 <= k < occ.len() && #[trigger] occ[k].name@ == z@;
        assert(z@.len() > 0);
        assert(layout_names(n).contains(z@));
        lemma_layout_names_are_panel_names(next);
        lemma_panel_names_contains(occurrences_of(next), z@);
        lemma_found_in_layout(next, z@);
    }
}

} // verus!
