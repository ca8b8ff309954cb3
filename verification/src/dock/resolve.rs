//! Projection of live dock trees to name-based topology, and resolution of a topology
//! against the panels a dock already owns.

use vstd::prelude::*;

use super::item::{
    call_fallback, fallback_agrees, fallback_callable, lemma_take_step, lemma_view_items, meta_at,
    size_at, view_item, view_items, DockItem, DockNode, DockPanel, TileMeta,
};
use super::topology::{lemma_view_topos, names_view, view_topos, DockTopologyNode, TopoNode};

verus! {

/// The names of a strip of panels, in order.
pub open spec fn panel_names(s: Seq<DockPanel>) -> Seq<Seq<char>> {
    s.map_values(|p: DockPanel| p.name@)
}

/// Payload-free projection of a live node to panel names; split sizes are aligned with the
/// children, missing sizes becoming flexible.
pub open spec fn topo_of(node: DockNode) -> TopoNode
    decreases node,
{
    match node {
        DockNode::Empty => TopoNode::Empty,
        DockNode::Panel(p) => TopoNode::Panel(p.name@),
        DockNode::Tabs { items, .. } => TopoNode::Tabs(panel_names(items)),
        DockNode::Tiles { items, metas } => TopoNode::Tiles(panel_names(items), metas),
        DockNode::Split { horizontal, children, sizes } => TopoNode::Split(
            horizontal,
            topo_of_all(children),
            Seq::new(children.len(), |ix: int| size_at(sizes, ix)),
        ),
    }
}

/// Projection of each child, in order.
pub open spec fn topo_of_all(children: Seq<DockNode>) -> Seq<TopoNode>
    decreases children,
{
    if children.len() == 0 {
        Seq::empty()
    } else {
        topo_of_all(children.drop_last()).push(topo_of(children.last()))
    }
}

/// Names of a strip as strings.
fn strip_names(items: &Vec<DockPanel>) -> (r: Vec<String>)
    ensures
        names_view(r@) == panel_names(items@),
{
    let mut r: Vec<String> = Vec::new();
    let mut i: usize = 0;
    while i < items.len()
        invariant
            i <= items.len(),
            names_view(r@) == panel_names(items@.take(i as int)),
        decreases items.len() - i,
    {
        let ghost prev = r@;
        r.push(items[i].name.clone());
        assert(names_view(r@) =~= names_view(prev).push(items@[i as int].name@));
        assert(panel_names(items@.take(i + 1)) =~= panel_names(items@.take(i as int)).push(items@[i as int].name@));
        i = i + 1;
    }
    assert(items@.take(items.len() as int) =~= items@);
    r
}

impl DockItem {
    /// Project this node to payload-free panel names and geometry.
    pub fn topology_by_name(&self) -> (r: DockTopologyNode)
        ensures
            r@ == topo_of(self@),
        decreases self,
    {
        match self {
            DockItem::Empty => DockTopologyNode::Empty,
            DockItem::Panel(p) => DockTopologyNode::Panel { name: p.name.clone() },
            DockItem::Tabs { items, .. } => DockTopologyNode::Tabs { names: strip_names(items) },
            DockItem::Tiles { items, metas } => DockTopologyNode::Tiles {
                names: strip_names(items),
                metas: metas.clone(),
            },
            DockItem::Split { horizontal, items, sizes } => {
                let ghost v = view_items(items@);
                proof { lemma_view_items(items@); }
                let mut out: Vec<DockTopologyNode> = Vec::new();
                let mut out_sizes: Vec<Option<u32>> = Vec::new();
                let mut i: usize = 0;
                #[verifier::loop_isolation(false)]
                while i < items.len()
                    invariant
                        i <= items.len(),
                        view_topos(out@) == topo_of_all(v.take(i as int)),
                        out_sizes@ == Seq::new(i as nat, |ix: int| size_at(sizes@, ix)),
                    decreases items.len() - i,
                {
                    proof { lemma_take_step(v, i as int); }
                    let child = items[i].topology_by_name();
                    proof { assert(out@.push(child).drop_last() == out@); }
                    out.push(child);
                    let size = if i < sizes.len() { sizes[i] } else { None };
                    out_sizes.push(size);
                    assert(out_sizes@ =~= Seq::new((i + 1) as nat, |ix: int| size_at(sizes@, ix)));
                    i = i + 1;
                }
                assert(v.take(items.len() as int) == v);
                DockTopologyNode::Split { horizontal: *horizontal, items: out, sizes: out_sizes }
            },
        }
    }
}

/// Whether some panel of `s` is named `n`.
pub open spec fn has_name(s: Seq<DockPanel>, n: Seq<char>) -> bool {
    exists|k: int| 0 <= k < s.len() && #[trigger] s[k].name@ == n
}

/// The pool a resolver draws from: current panels then supplied ones, keeping the first
/// identity of each stable name.
pub open spec fn resolver_pool(panels: Seq<DockPanel>) -> Seq<DockPanel>
    decreases panels.len(),
{
    if panels.len() == 0 {
        Seq::empty()
    } else {
        let pool = resolver_pool(panels.drop_last());
        if has_name(pool, panels.last().name@) {
            pool
        } else {
            pool.push(panels.last())
        }
    }
}

/// Index of the first unused pool panel named `n`, or the pool length when there is none.
pub open spec fn free_index(pool: Seq<DockPanel>, used: Seq<bool>, n: Seq<char>, from: int) -> int
    decreases pool.len() - from,
{
    if from >= pool.len() {
        pool.len() as int
    } else if !used[from] && pool[from].name@ == n {
        from
    } else {
        free_index(pool, used, n, from + 1)
    }
}

/// The panel a resolver hands out for `n`, with the usage marks afterwards.
pub open spec fn take_free(pool: Seq<DockPanel>, used: Seq<bool>, n: Seq<char>) -> (Option<DockPanel>, Seq<bool>) {
    let k = free_index(pool, used, n, 0);
    if k < pool.len() {
        (Some(pool[k]), used.update(k, true))
    } else {
        (None, used)
    }
}

/// Hand out panels for a strip of names in order, skipping names without a free panel.
pub open spec fn take_free_all(pool: Seq<DockPanel>, used: Seq<bool>, names: Seq<Seq<char>>) -> (Seq<DockPanel>, Seq<bool>)
    decreases names.len(),
{
    if names.len() == 0 {
        (Seq::empty(), used)
    } else {
        let (ps, u) = take_free_all(pool, used, names.drop_last());
        let (p, u2) = take_free(pool, u, names.last());
        match p {
            Some(panel) => (ps.push(panel), u2),
            None => (ps, u2),
        }
    }
}

/// Hand out panels for tiles in order, with each kept tile's stored geometry or fallback.
pub open spec fn take_free_tiles(
    pool: Seq<DockPanel>,
    used: Seq<bool>,
    names: Seq<Seq<char>>,
    metas: Seq<TileMeta>,
    d: spec_fn(usize) -> TileMeta,
) -> (Seq<DockPanel>, Seq<TileMeta>, Seq<bool>)
    decreases names.len(),
{
    if names.len() == 0 {
        (Seq::empty(), Seq::empty(), used)
    } else {
        let (ps, ms, u) = take_free_tiles(pool, used, names.drop_last(), metas, d);
        let (p, u2) = take_free(pool, u, names.last());
        match p {
            Some(panel) => (ps.push(panel), ms.push(meta_at(metas, names.len() - 1, d)), u2),
            None => (ps, ms, u2),
        }
    }
}

/// Resolve a topology node against the pool: names without a free panel are skipped and
/// containers left with one member or none collapse.
pub open spec fn resolved(node: TopoNode, pool: Seq<DockPanel>, used: Seq<bool>, d: spec_fn(usize) -> TileMeta) -> (DockNode, Seq<bool>)
    decreases node,
{
    match node {
        TopoNode::Empty => (DockNode::Empty, used),
        TopoNode::Panel(n) => {
            let (p, u) = take_free(pool, used, n);
            match p {
                Some(panel) => (DockNode::Panel(panel), u),
                None => (DockNode::Empty, u),
            }
        },
        TopoNode::Tabs(names) => {
            let (ps, u) = take_free_all(pool, used, names);
            (if ps.len() == 0 {
                DockNode::Empty
            } else if ps.len() == 1 {
                DockNode::Panel(ps[0])
            } else {
                DockNode::Tabs { items: ps, active_ix: 0 }
            }, u)
        },
        TopoNode::Tiles(names, metas) => {
            let (ps, ms, u) = take_free_tiles(pool, used, names, metas, d);
            (if ps.len() == 0 {
                DockNode::Empty
            } else if ps.len() == 1 {
                DockNode::Panel(ps[0])
            } else {
                DockNode::Tiles { items: ps, metas: ms }
            }, u)
        },
        TopoNode::Split(horizontal, items, sizes) => {
            let (cs, ss, u) = resolved_children(items, sizes, pool, used, d);
            (if cs.len() == 0 {
                DockNode::Empty
            } else if cs.len() == 1 {
                cs[0]
            } else {
                DockNode::Split { horizontal, children: cs, sizes: ss }
            }, u)
        },
    }
}

/// Resolve each child in order, keeping the non-empty ones with their stored sizes.
pub open spec fn resolved_children(
    items: Seq<TopoNode>,
    sizes: Seq<Option<u32>>,
    pool: Seq<DockPanel>,
    used: Seq<bool>,
    d: spec_fn(usize) -> TileMeta,
) -> (Seq<DockNode>, Seq<Option<u32>>, Seq<bool>)
    decreases items,
{
    if items.len() == 0 {
        (Seq::empty(), Seq::empty(), used)
    } else {
        let (cs, ss, u) = resolved_children(items.drop_last(), sizes, pool, used, d);
        let (c, u2) = resolved(items.last(), pool, u, d);
        if c is Empty {
            (cs, ss, u2)
        } else {
            (cs.push(c), ss.push(size_at(sizes, items.len() - 1)), u2)
        }
    }
}

/// The pool panels left unused, in pool order.
pub open spec fn unused(pool: Seq<DockPanel>, used: Seq<bool>) -> Seq<DockPanel>
    decreases pool.len(),
{
    if pool.len() == 0 {
        Seq::empty()
    } else {
        let rest = unused(pool.drop_last(), used);
        if used[pool.len() - 1] {
            rest
        } else {
            rest.push(pool.last())
        }
    }
}

/// Resolves stable panel names to the panels a dock already owns, each at most once.
pub struct NamedPanelResolver {
    panels: Vec<DockPanel>,
    used: Vec<bool>,
}

impl NamedPanelResolver {
    /// The pool of panels, in order.
    pub closed spec fn pool(&self) -> Seq<DockPanel> {
        self.panels@
    }

    /// Which pool panels were handed out.
    pub closed spec fn marks(&self) -> Seq<bool> {
        self.used@
    }

    pub closed spec fn wf(&self) -> bool {
        self.used@.len() == self.panels@.len()
    }

    /// Merge current and supplied panels, retaining one identity per stable name.
    pub fn new(current: Vec<DockPanel>, additional: Vec<DockPanel>) -> (r: Self)
        ensures
            r.wf(),
            r.pool() == resolver_pool(current@ + additional@),
            r.marks() == Seq::new(r.pool().len(), |k: int| false),
    {
        let ghost all = current@ + additional@;
        let mut all_panels = current;
        let mut additional = additional;
        all_panels.append(&mut additional);
        assert(all_panels@ == all);
        let mut panels: Vec<DockPanel> = Vec::new();
        let mut i: usize = 0;
        while i < all_panels.len()
            invariant
                i <= all_panels.len(),
                all_panels@ == all,
                panels@ == resolver_pool(all.take(i as int)),
            decreases all_panels.len() - i,
        {
            proof { lemma_take_step(all, i as int); }
            let mut known = false;
            let mut k: usize = 0;
            while k < panels.len()
                invariant
                    k <= panels.len(),
                    i < all_panels.len(),
                    all_panels@ == all,
                    panels@ == resolver_pool(all.take(i as int)),
                    known == (exists|j: int| 0 <= j < k && #[trigger] panels@[j].name@ == all_panels@[i as int].name@),
                decreases panels.len() - k,
            {
                if panels[k].is_named(all_panels[i].name.as_str()) {
                    known = true;
                }
                k = k + 1;
            }
            if !known {
                panels.push(all_panels[i].share());
            }
            i = i + 1;
        }
        assert(all.take(all.len() as int) == all);
        let mut used: Vec<bool> = Vec::new();
        let mut j: usize = 0;
        while j < panels.len()
            invariant
                j <= panels.len(),
                used@ == Seq::new(j as nat, |k: int| false),
            decreases panels.len() - j,
        {
            used.push(false);
            assert(used@ =~= Seq::new((j + 1) as nat, |k: int| false));
            j = j + 1;
        }
        NamedPanelResolver { panels, used }
    }

    /// Hand out the first unused pool panel with the requested stable name.
    pub fn take_named(&mut self, name: &str) -> (r: Option<DockPanel>)
        requires
            old(self).wf(),
        ensures
            final(self).wf(),
            final(self).pool() == old(self).pool(),
            (r, final(self).marks()) == take_free(old(self).pool(), old(self).marks(), name@),
    {
        let mut k: usize = 0;
        while k < self.panels.len()
            invariant
                k <= self.panels.len(),
                self.wf(),
                self.panels@ == old(self).panels@,
                self.used@ == old(self).used@,
                free_index(self.panels@, self.used@, name@, 0) == free_index(self.panels@, self.used@, name@, k as int),
            decreases self.panels.len() - k,
        {
            if !self.used[k] && self.panels[k].is_named(name) {
                self.used.set(k, true);
                return Some(self.panels[k].share());
            }
            k = k + 1;
        }
        None
    }

    /// Hand out panels for a strip of names.
    fn take_strip(&mut self, names: &Vec<String>) -> (r: Vec<DockPanel>)
        requires
            old(self).wf(),
        ensures
            final(self).wf(),
            final(self).pool() == old(self).pool(),
            (r@, final(self).marks()) == take_free_all(old(self).pool(), old(self).marks(), names_view(names@)),
    {
        let ghost nv = names_view(names@);
        let ghost u0 = self.used@;
        let mut out: Vec<DockPanel> = Vec::new();
        let mut i: usize = 0;
        while i < names.len()
            invariant
                i <= names.len(),
                self.wf(),
                self.pool() == old(self).pool(),
                nv == names_view(names@),
                (out@, self.used@) == take_free_all(self.panels@, u0, nv.take(i as int)),
            decreases names.len() - i,
        {
            proof { lemma_take_step(nv, i as int); }
            assert(nv[i as int] == names@[i as int]@);
            match self.take_named(names[i].as_str()) {
                Some(p) => out.push(p),
                None => {},
            }
            i = i + 1;
        }
        assert(nv.take(names.len() as int) == nv);
        out
    }

    /// Resolve one topology node, skipping names absent from the pool.
    pub fn resolve_node<F: Fn(usize) -> TileMeta + Copy>(&mut self, node: &DockTopologyNode, missing: F) -> (r: DockItem)
        requires
            old(self).wf(),
            fallback_callable(missing),
        ensures
            final(self).wf(),
            final(self).pool() == old(self).pool(),
            forall|g: spec_fn(usize) -> TileMeta| fallback_agrees(missing, g) ==> (r@, final(self).marks()) == #[trigger] resolved(node@, old(self).pool(), old(self).marks(), g),
        decreases node,
    {
        let ghost nv0 = node@;
        let ghost pool0 = self.pool();
        let ghost marks0 = self.marks();
        match node {
            DockTopologyNode::Empty => {
                assert forall|g: spec_fn(usize) -> TileMeta| fallback_agrees(missing, g) implies (DockNode::Empty, marks0) == #[trigger] resolved(nv0, pool0, marks0, g) by {}
                DockItem::Empty
            },
            DockTopologyNode::Panel { name } => {
                let r = match self.take_named(name.as_str()) {
                    Some(p) => DockItem::Panel(p),
                    None => DockItem::Empty,
                };
                assert forall|g: spec_fn(usize) -> TileMeta| fallback_agrees(missing, g) implies (r@, self.marks()) == #[trigger] resolved(nv0, pool0, marks0, g) by {}
                r
            },
            DockTopologyNode::Tabs { names } => {
                let mut items = self.take_strip(names);
                let ghost iv = items@;
                let r = if items.len() == 0 {
                    DockItem::Empty
                } else if items.len() == 1 {
                    DockItem::Panel(items.remove(0))
                } else {
                    DockItem::Tabs { items, active_ix: 0 }
                };
                assert forall|g: spec_fn(usize) -> TileMeta| fallback_agrees(missing, g) implies (r@, self.marks()) == #[trigger] resolved(nv0, pool0, marks0, g) by {
                    assert((iv, self.marks()) == take_free_all(pool0, marks0, names_view(names@)));
                }
                r
            },
            DockTopologyNode::Tiles { names, metas } => {
                let ghost nv = names_view(names@);
                let ghost u0 = self.used@;
                let mut items: Vec<DockPanel> = Vec::new();
                let mut kept_metas: Vec<TileMeta> = Vec::new();
                let mut i: usize = 0;
                while i < names.len()
                    invariant
                        i <= names.len(),
                        self.wf(),
                        self.pool() == old(self).pool(),
                        fallback_callable(missing),
                        nv == names_view(names@),
                        forall|g: spec_fn(usize) -> TileMeta| fallback_agrees(missing, g) ==> (items@, kept_metas@, self.used@) == #[trigger] take_free_tiles(self.panels@, u0, nv.take(i as int), metas@, g),
                    decreases names.len() - i,
                {
                    proof { lemma_take_step(nv, i as int); }
                    assert(nv[i as int] == names@[i as int]@);
                    let ghost i0 = items@;
                    let ghost m0 = kept_metas@;
                    let ghost u_before = self.used@;
                    match self.take_named(names[i].as_str()) {
                        Some(p) => {
                            items.push(p);
                            let m = if i < metas.len() { metas[i] } else { call_fallback(&missing, i) };
                            kept_metas.push(m);
                        },
                        None => {},
                    }
                    assert forall|g: spec_fn(usize) -> TileMeta| fallback_agrees(missing, g) implies (items@, kept_metas@, self.used@) == #[trigger] take_free_tiles(self.panels@, u0, nv.take(i + 1), metas@, g) by {
                        assert((i0, m0, u_before) == take_free_tiles(self.panels@, u0, nv.take(i as int), metas@, g));
                    }
                    i = i + 1;
                }
                assert(nv.take(names.len() as int) == nv);
                let ghost iv = items@;
                let ghost mv = kept_metas@;
                let r = if items.len() == 0 {
                    DockItem::Empty
                } else if items.len() == 1 {
                    DockItem::Panel(items.remove(0))
                } else {
                    DockItem::Tiles { items, metas: kept_metas }
                };
                assert forall|g: spec_fn(usize) -> TileMeta| fallback_agrees(missing, g) implies (r@, self.marks()) == #[trigger] resolved(nv0, pool0, marks0, g) by {
                    assert((iv, mv, self.used@) == take_free_tiles(self.panels@, u0, nv.take(names.len() as int), metas@, g));
                }
                r
            },
            DockTopologyNode::Split { horizontal, items, sizes } => {
                let ghost v = view_topos(items@);
                let ghost u0 = self.used@;
                proof { lemma_view_topos(items@); }
                let mut out: Vec<DockItem> = Vec::new();
                let mut out_sizes: Vec<Option<u32>> = Vec::new();
                let mut i: usize = 0;
                #[verifier::loop_isolation(false)]
                while i < items.len()
                    invariant
                        i <= items.len(),
                        self.wf(),
                        self.pool() == old(self).pool(),
                        forall|g: spec_fn(usize) -> TileMeta| fallback_agrees(missing, g) ==> (view_items(out@), out_sizes@, self.used@) == #[trigger] resolved_children(v.take(i as int), sizes@, self.panels@, u0, g),
                    decreases items.len() - i,
                {
                    proof { lemma_take_step(v, i as int); }
                    let ghost o0 = view_items(out@);
                    let ghost z0 = out_sizes@;
                    let ghost u_before = self.used@;
                    let ghost p_before = self.pool();
                    let ghost m_before = self.marks();
                    let child = self.resolve_node(&items[i], missing);
                    let ghost u_after = self.used@;
                    if !child.is_empty() {
                        let size = if i < sizes.len() { sizes[i] } else { None };
                        proof { assert(out@.push(child).drop_last() == out@); }
                        out.push(child);
                        out_sizes.push(size);
                    }
                    assert forall|g: spec_fn(usize) -> TileMeta| fallback_agrees(missing, g) implies (view_items(out@), out_sizes@, self.used@) == #[trigger] resolved_children(v.take(i + 1), sizes@, self.panels@, u0, g) by {
                        assert((o0, z0, u_before) == resolved_children(v.take(i as int), sizes@, self.panels@, u0, g));
                        assert((child@, u_after) == resolved(items@[i as int]@, p_before, m_before, g));
                        assert(v[i as int] == items@[i as int]@);
                    }
                    i = i + 1;
                }
                assert(v.take(items.len() as int) == v);
                proof { lemma_view_items(out@); }
                let ghost ov = view_items(out@);
                let ghost osv = out_sizes@;
                let ghost out_raw = out@;
                let r = if out.len() == 0 {
                    DockItem::Empty
                } else if out.len() == 1 {
                    out.remove(0)
                } else {
                    DockItem::Split { horizontal: *horizontal, items: out, sizes: out_sizes }
                };
                assert forall|g: spec_fn(usize) -> TileMeta| fallback_agrees(missing, g) implies (r@, self.marks()) == #[trigger] resolved(nv0, pool0, marks0, g) by {
                    assert((ov, osv, self.used@) == resolved_children(v.take(items.len() as int), sizes@, self.panels@, u0, g));
                    if out_raw.len() == 1 {
                        assert(ov[0] == out_raw[0]@);
                    }
                }
                r
            },
        }
    }

    /// Every pool panel not handed out, in pool order.
    pub fn remaining(&self) -> (r: Vec<DockPanel>)
        requires
            self.wf(),
        ensures
            r@ == unused(self.pool(), self.marks()),
    {
        let mut r: Vec<DockPanel> = Vec::new();
        let mut i: usize = 0;
        while i < self.panels.len()
            invariant
                i <= self.panels.len(),
                self.wf(),
                r@ == unused(self.panels@.take(i as int), self.used@),
            decreases self.panels.len() - i,
        {
            proof { lemma_take_step(self.panels@, i as int); }
            if !self.used[i] {
                r.push(self.panels[i].share());
            }
            i = i + 1;
        }
        assert(self.panels@.take(self.panels.len() as int) == self.panels@);
        r
    }
}

} // verus!
