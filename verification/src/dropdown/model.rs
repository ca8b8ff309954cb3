//! Menu row models and nested-menu storage.

use vstd::prelude::*;

verus! {

/// Visual and interaction role of one popup-menu row.
#[derive(Clone, Copy, Debug, PartialEq, Eq, Structural)]
pub enum MoonMenuItemKind {
    Item,
    Label,
    Separator,
}

/// The FNV-1a 64-bit offset basis, the hash of no rows.
pub const MENU_LAYOUT_HASH_SEED: u64 = 0xcbf2_9ce4_8422_2325;

/// The FNV-1a 64-bit prime.
pub const MENU_LAYOUT_HASH_PRIME: u64 = 0x0000_0100_0000_01b3;

/// The tag a row kind contributes to the layout hash.
pub open spec fn kind_tag(kind: MoonMenuItemKind) -> u64 {
    match kind {
        MoonMenuItemKind::Item => 1,
        MoonMenuItemKind::Label => 2,
        MoonMenuItemKind::Separator => 3,
    }
}

/// The layout hash of a sequence of row kinds: FNV-1a over their tags, in order.
pub open spec fn kinds_hash(kinds: Seq<MoonMenuItemKind>) -> u64
    decreases kinds.len(),
{
    if kinds.len() == 0 {
        MENU_LAYOUT_HASH_SEED
    } else {
        (kinds_hash(kinds.drop_last()) ^ kind_tag(kinds.last())).wrapping_mul(MENU_LAYOUT_HASH_PRIME)
    }
}

/// Ordered menu-row signature accumulated while rows are appended.
#[derive(Clone, Copy, Debug, PartialEq, Eq, Structural)]
pub struct MenuLayoutFingerprint {
    pub item_count: usize,
    pub kind_hash: u64,
}

/// The fingerprint of a sequence of row kinds.
pub open spec fn fingerprint_of(kinds: Seq<MoonMenuItemKind>) -> MenuLayoutFingerprint {
    MenuLayoutFingerprint { item_count: kinds.len() as usize, kind_hash: kinds_hash(kinds) }
}

/// Two rows in either order leave different fingerprints: an item then a label differs from a
/// label then an item, though both count two rows.
pub proof fn lemma_fingerprint_tracks_row_order()
    ensures
        fingerprint_of(seq![MoonMenuItemKind::Item, MoonMenuItemKind::Label]).item_count == 2,
        fingerprint_of(seq![MoonMenuItemKind::Label, MoonMenuItemKind::Item]).item_count == 2,
        fingerprint_of(seq![MoonMenuItemKind::Item, MoonMenuItemKind::Label])
            != fingerprint_of(seq![MoonMenuItemKind::Label, MoonMenuItemKind::Item]),
{
    let il = seq![MoonMenuItemKind::Item, MoonMenuItemKind::Label];
    let li = seq![MoonMenuItemKind::Label, MoonMenuItemKind::Item];
    let i1 = seq![MoonMenuItemKind::Item];
    let l1 = seq![MoonMenuItemKind::Label];
    let e = Seq::<MoonMenuItemKind>::empty();
    assert(il.drop_last() == i1 && li.drop_last() == l1 && il.last() == MoonMenuItemKind::Label && li.last() == MoonMenuItemKind::Item);
    assert(i1.drop_last() == e && l1.drop_last() == e && i1.last() == MoonMenuItemKind::Item && l1.last() == MoonMenuItemKind::Label);
    assert(0xcbf2_9ce4_8422_2325u64 ^ 1u64 == 0xcbf2_9ce4_8422_2324u64 && 0xcbf2_9ce4_8422_2325u64 ^ 2u64 == 0xcbf2_9ce4_8422_2327u64
        && 0xaf63_bc4c_8601_b62cu64 ^ 2u64 == 0xaf63_bc4c_8601_b62eu64 && 0xaf63_bf4c_8601_bb45u64 ^ 1u64 == 0xaf63_bf4c_8601_bb44u64)
        by (bit_vector);
    assert(kinds_hash(e) == MENU_LAYOUT_HASH_SEED);
    assert(kinds_hash(i1) == (0xcbf2_9ce4_8422_2324u64).wrapping_mul(0x0000_0100_0000_01b3u64));
    assert((0xcbf2_9ce4_8422_2324u64).wrapping_mul(0x0000_0100_0000_01b3u64) == 0xaf63_bc4c_8601_b62cu64);
    assert(kinds_hash(i1) == 0xaf63_bc4c_8601_b62cu64);
    assert(kinds_hash(l1) == 0xaf63_bf4c_8601_bb45u64);
    assert(kinds_hash(il) == 0x082f_2407_b4e8_902au64);
    assert(kinds_hash(li) == 0x0839_5307_b4f1_348cu64);
}

impl MenuLayoutFingerprint {
    /// The fingerprint of a menu without rows.
    pub fn new() -> (r: MenuLayoutFingerprint)
        ensures
            r == fingerprint_of(Seq::empty()),
    {
        MenuLayoutFingerprint { item_count: 0, kind_hash: MENU_LAYOUT_HASH_SEED }
    }

    /// Add one row kind at the end.
    pub fn push(&mut self, kind: MoonMenuItemKind)
        requires
            old(self).item_count < usize::MAX,
        ensures
            final(self).item_count == old(self).item_count + 1,
            final(self).kind_hash == (old(self).kind_hash ^ kind_tag(kind)).wrapping_mul(MENU_LAYOUT_HASH_PRIME),
    {
        let kind_tag: u64 = match kind {
            MoonMenuItemKind::Item => 1,
            MoonMenuItemKind::Label => 2,
            MoonMenuItemKind::Separator => 3,
        };
        self.item_count = self.item_count + 1;
        self.kind_hash = (self.kind_hash ^ kind_tag).wrapping_mul(MENU_LAYOUT_HASH_PRIME);
    }
}

impl Default for MenuLayoutFingerprint {
    fn default() -> (r: MenuLayoutFingerprint)
        ensures
            r == fingerprint_of(Seq::empty()),
    {
        MenuLayoutFingerprint::new()
    }
}

/// The kinds of a sequence of rows, in order.
pub open spec fn kinds_of(items: Seq<MoonMenuItem>) -> Seq<MoonMenuItemKind> {
    items.map_values(|i: MoonMenuItem| i.kind)
}

/// Rows of one menu level and the fingerprint of their kinds.
pub struct MoonMenuLevel {
    items: Vec<MoonMenuItem>,
    layout: MenuLayoutFingerprint,
}

impl MoonMenuLevel {
    /// The rows, in display order.
    pub closed spec fn rows(&self) -> Seq<MoonMenuItem> {
        self.items@
    }

    /// The stored layout fingerprint.
    pub closed spec fn fingerprint(&self) -> MenuLayoutFingerprint {
        self.layout
    }

    /// The stored fingerprint is that of the rows.
    pub open spec fn wf(&self) -> bool {
        self.fingerprint() == fingerprint_of(kinds_of(self.rows()))
    }

    /// A level without rows.
    pub fn empty() -> (r: MoonMenuLevel)
        ensures
            r.wf(),
            r.rows().len() == 0,
    {
        let r = MoonMenuLevel { items: Vec::new(), layout: MenuLayoutFingerprint::new() };
        assert(kinds_of(r.items@) =~= Seq::empty());
        r
    }

    /// A level holding `items` in display order.
    pub fn new(items: Vec<MoonMenuItem>) -> (r: MoonMenuLevel)
        requires
            items@.len() < usize::MAX,
        ensures
            r.wf(),
            r.rows() == items@,
    {
        let mut level = MoonMenuLevel::empty();
        level.extend(items);
        assert(level.rows() =~= items@);
        level
    }

    /// A level from rows whose fingerprint was accumulated elsewhere.
    pub fn from_parts(items: Vec<MoonMenuItem>, layout: MenuLayoutFingerprint) -> (r: MoonMenuLevel)
        requires
            layout == fingerprint_of(kinds_of(items@)),
        ensures
            r.wf(),
            r.rows() == items@,
            r.fingerprint() == layout,
    {
        MoonMenuLevel { items, layout }
    }

    /// Append rows, extending the fingerprint in the same pass.
    pub fn extend(&mut self, items: Vec<MoonMenuItem>)
        requires
            old(self).wf(),
            old(self).rows().len() + items@.len() < usize::MAX,
        ensures
            final(self).wf(),
            final(self).rows() == old(self).rows() + items@,
    {
        let ghost start = self.items@;
        let mut items = items;
        let ghost all = items@;
        let n = items.len();
        let mut rest: Vec<MoonMenuItem> = Vec::new();
        std::mem::swap(&mut rest, &mut items);
        let mut i: usize = 0;
        while i < n
            invariant
                i <= n,
                n == all.len(),
                rest@.len() == n,
                forall|j: int| i <= j < n ==> rest@[j] == all[j],
                start.len() + n < usize::MAX,
                self.items@ == start + all.take(i as int),
                self.layout == fingerprint_of(kinds_of(self.items@)),
            decreases n - i,
        {
            let mut item = MoonMenuItem::separator();
            std::mem::swap(&mut item, &mut rest[i]);
            let ghost before = self.items@;
            self.layout.push(item.kind);
            self.items.push(item);
            proof {
                assert(all.take(i + 1) == all.take(i as int).push(all[i as int]));
                assert(kinds_of(self.items@).drop_last() =~= kinds_of(before));
                assert(kinds_of(self.items@).last() == all[i as int].kind);
            }
            i = i + 1;
        }
        assert(all.take(n as int) == all);
    }

    /// The layout fingerprint of the rows.
    pub fn layout(&self) -> (r: MenuLayoutFingerprint)
        ensures
            r == self.fingerprint(),
    {
        self.layout
    }

    /// The number of rows.
    pub fn len(&self) -> (r: usize)
        ensures
            r == self.rows().len(),
    {
        self.items.len()
    }

    /// The rows, in display order.
    pub fn as_slice(&self) -> (r: &[MoonMenuItem])
        ensures
            r@ == self.rows(),
    {
        self.items.as_slice()
    }
}

/// One menu row: its key, label and role, its state, and its nested menu.
pub struct MoonMenuItem {
    pub key: String,
    pub label: String,
    pub kind: MoonMenuItemKind,
    pub right_label: Option<String>,
    /// The semantic tone the row is painted in.
    pub tone: MoonTone,
    pub selected: bool,
    pub checked: bool,
    pub disabled: bool,
    /// Whether the row may dispatch clicks.
    pub actionable: bool,
    pub submenu: MoonMenuLevel,
    /// Per-row override of the dropdown's close-on-select policy; `None` follows the dropdown.
    pub closes_menu: Option<bool>,
}

/// The semantic tones a row is painted in.
#[derive(Clone, Copy, Debug, PartialEq, Eq, Structural)]
pub enum MoonTone {
    Default,
    Muted,
    Info,
}

/// The plain values of a row: key, label, kind, right label, selected, checked, disabled,
/// actionable and close override.
pub open spec fn row_view(i: MoonMenuItem) -> (Seq<char>, Seq<char>, MoonMenuItemKind, Option<Seq<char>>, bool, bool, bool, bool, Option<bool>) {
    (
        i.key@,
        i.label@,
        i.kind,
        match i.right_label { Some(s) => Some(s@), None => None },
        i.selected,
        i.checked,
        i.disabled,
        i.actionable,
        i.closes_menu,
    )
}

/// The plain values of a row and its tone, together with its nested menu's fingerprint and
/// rows, recursively: what two copies of a row share.
pub struct RowTree {
    pub row: (Seq<char>, Seq<char>, MoonMenuItemKind, Option<Seq<char>>, bool, bool, bool, bool, Option<bool>),
    pub tone: MoonTone,
    pub submenu_fingerprint: MenuLayoutFingerprint,
    pub submenu: Seq<RowTree>,
}

/// The deep value of a row: its plain values, and those of its nested menu, recursively.
pub open spec fn row_tree(i: MoonMenuItem) -> RowTree
    decreases i,
{
    RowTree {
        row: row_view(i),
        tone: i.tone,
        submenu_fingerprint: i.submenu.fingerprint(),
        submenu: rows_tree(i.submenu.rows()),
    }
}

/// The deep values of rows, in order.
pub open spec fn rows_tree(items: Seq<MoonMenuItem>) -> Seq<RowTree>
    decreases items,
{
    if items.len() == 0 {
        Seq::empty()
    } else {
        rows_tree(items.drop_last()).push(row_tree(items.last()))
    }
}

/// The deep values of rows are those of each row, in order.
pub proof fn lemma_rows_tree(items: Seq<MoonMenuItem>)
    ensures
        rows_tree(items).len() == items.len(),
        forall|k: int| 0 <= k < items.len() ==> #[trigger] rows_tree(items)[k] == row_tree(items[k]),
    decreases items.len(),
{
    if items.len() > 0 {
        lemma_rows_tree(items.drop_last());
    }
}

/// Rows whose deep values agree one by one have the same deep values.
proof fn lemma_rows_tree_eq(a: Seq<MoonMenuItem>, b: Seq<MoonMenuItem>)
    requires
        a.len() == b.len(),
        forall|k: int| 0 <= k < a.len() ==> #[trigger] row_tree(a[k]) == row_tree(b[k]),
    ensures
        rows_tree(a) == rows_tree(b),
{
    lemma_rows_tree(a);
    lemma_rows_tree(b);
    assert(rows_tree(a) =~= rows_tree(b));
}

impl MoonMenuItem {
    /// An enabled ordinary row whose key is its label.
    pub fn new(label: String) -> (r: MoonMenuItem)
        ensures
            row_view(r) == (label@, label@, MoonMenuItemKind::Item, None::<Seq<char>>, false, false, false, true, None::<bool>),
            r.tone == MoonTone::Default,
            r.submenu.wf(),
            r.submenu.rows().len() == 0,
    {
        MoonMenuItem {
            key: label.clone(),
            label,
            kind: MoonMenuItemKind::Item,
            right_label: None,
            tone: MoonTone::Default,
            selected: false,
            checked: false,
            disabled: false,
            actionable: true,
            submenu: MoonMenuLevel::empty(),
            closes_menu: None,
        }
    }

    /// An enabled ordinary row with its own selection key.
    pub fn with_key(key: String, label: String) -> (r: MoonMenuItem)
        ensures
            row_view(r) == (key@, label@, MoonMenuItemKind::Item, None::<Seq<char>>, false, false, false, true, None::<bool>),
            r.tone == MoonTone::Default,
            r.submenu.wf(),
            r.submenu.rows().len() == 0,
    {
        MoonMenuItem {
            key,
            label,
            kind: MoonMenuItemKind::Item,
            right_label: None,
            tone: MoonTone::Default,
            selected: false,
            checked: false,
            disabled: false,
            actionable: true,
            submenu: MoonMenuLevel::empty(),
            closes_menu: None,
        }
    }

    /// A disabled section-label row.
    pub fn label(label: String) -> (r: MoonMenuItem)
        ensures
            row_view(r) == (label@, label@, MoonMenuItemKind::Label, None::<Seq<char>>, false, false, true, false, None::<bool>),
            r.tone == MoonTone::Default,
            r.submenu.wf(),
            r.submenu.rows().len() == 0,
    {
        let mut item = MoonMenuItem::new(label);
        item.kind = MoonMenuItemKind::Label;
        item.disabled = true;
        item.actionable = false;
        item
    }

    /// An enabled section label that keeps label typography and accepts clicks.
    pub fn action_label(key: String, label: String) -> (r: MoonMenuItem)
        ensures
            row_view(r) == (key@, label@, MoonMenuItemKind::Label, None::<Seq<char>>, false, false, false, true, None::<bool>),
            r.tone == MoonTone::Default,
            r.submenu.wf(),
            r.submenu.rows().len() == 0,
    {
        let mut item = MoonMenuItem::with_key(key, label);
        item.kind = MoonMenuItemKind::Label;
        item
    }

    /// An inert separator row, keyed `separator` with an empty label.
    pub fn separator() -> (r: MoonMenuItem)
        ensures
            row_view(r) == ("separator"@, ""@, MoonMenuItemKind::Separator, None::<Seq<char>>, false, false, true, false, None::<bool>),
            r.tone == MoonTone::Muted,
            r.submenu.wf(),
            r.submenu.rows().len() == 0,
    {
        MoonMenuItem {
            key: "separator".to_owned(),
            label: "".to_owned(),
            kind: MoonMenuItemKind::Separator,
            right_label: None,
            tone: MoonTone::Muted,
            selected: false,
            checked: false,
            disabled: true,
            actionable: false,
            submenu: MoonMenuLevel::empty(),
            closes_menu: None,
        }
    }

    /// The key reported by selection callbacks.
    pub fn key(&self) -> (r: &String)
        ensures
            r@ == self.key@,
    {
        &self.key
    }

    /// This row with trailing text at its right edge.
    pub fn right_label(self, right_label: String) -> (r: MoonMenuItem)
        ensures
            r == (MoonMenuItem { right_label: Some(right_label), ..self }),
    {
        let mut item = self;
        item.right_label = Some(right_label);
        item
    }

    /// This row painted in another semantic tone.
    pub fn tone(self, tone: MoonTone) -> (r: MoonMenuItem)
        ensures
            r == (MoonMenuItem { tone, ..self }),
    {
        let mut item = self;
        item.tone = tone;
        item
    }

    /// This row marked, or not, as the current single-select choice.
    pub fn selected(self, selected: bool) -> (r: MoonMenuItem)
        ensures
            r == (MoonMenuItem { selected, ..self }),
    {
        let mut item = self;
        item.selected = selected;
        item
    }

    /// This row with its checked indicator shown or hidden.
    pub fn checked(self, checked: bool) -> (r: MoonMenuItem)
        ensures
            r == (MoonMenuItem { checked, ..self }),
    {
        let mut item = self;
        item.checked = checked;
        item
    }

    /// This row rejecting, or accepting, activation.
    pub fn disabled(self, disabled: bool) -> (r: MoonMenuItem)
        ensures
            r == (MoonMenuItem { disabled, ..self }),
    {
        let mut item = self;
        item.disabled = disabled;
        item
    }

    /// This row deciding for itself whether a click on it closes the menu.
    pub fn closes_menu(self, closes_menu: bool) -> (r: MoonMenuItem)
        ensures
            r == (MoonMenuItem { closes_menu: Some(closes_menu), ..self }),
    {
        let mut item = self;
        item.closes_menu = Some(closes_menu);
        item
    }

    /// This row with a nested menu of `items`.
    pub fn submenu(self, items: Vec<MoonMenuItem>) -> (r: MoonMenuItem)
        requires
            items@.len() < usize::MAX,
        ensures
            row_view(r) == row_view(self),
            r.tone == self.tone,
            r.submenu.wf(),
            r.submenu.rows() == items@,
    {
        let mut item = self;
        item.submenu = MoonMenuLevel::new(items);
        item
    }

    /// Whether this row has a nested menu with at least one row.
    pub fn has_submenu(&self) -> (r: bool)
        ensures
            r == (self.submenu.rows().len() > 0),
    {
        self.submenu.len() > 0
    }

    /// A copy of this row.
    pub fn clone_row(&self) -> (r: MoonMenuItem)
        ensures
            row_tree(r) == row_tree(*self),
            row_view(r) == row_view(*self),
            r.submenu.fingerprint() == self.submenu.fingerprint(),
            kinds_of(r.submenu.rows()) == kinds_of(self.submenu.rows()),
        decreases self,
    {
        MoonMenuItem {
            key: self.key.clone(),
            label: self.label.clone(),
            kind: self.kind,
            right_label: match &self.right_label {
                Some(s) => Some(s.clone()),
                None => None,
            },
            tone: self.tone,
            selected: self.selected,
            checked: self.checked,
            disabled: self.disabled,
            actionable: self.actionable,
            submenu: self.submenu.clone_level(),
            closes_menu: self.closes_menu,
        }
    }
}

impl MoonMenuLevel {
    /// A copy of this level.
    pub fn clone_level(&self) -> (r: MoonMenuLevel)
        ensures
            r.fingerprint() == self.fingerprint(),
            kinds_of(r.rows()) == kinds_of(self.rows()),
            r.rows().len() == self.rows().len(),
            forall|k: int| 0 <= k < r.rows().len() ==> row_view(#[trigger] r.rows()[k]) == row_view(self.rows()[k]),
            rows_tree(r.rows()) == rows_tree(self.rows()),
        decreases self,
    {
        let mut items: Vec<MoonMenuItem> = Vec::new();
        let mut i: usize = 0;
        while i < self.items.len()
            invariant
                i <= self.items@.len(),
                items@.len() == i,
                forall|k: int| 0 <= k < i ==> row_view(#[trigger] items@[k]) == row_view(self.items@[k]),
                forall|k: int| 0 <= k < i ==> row_tree(#[trigger] items@[k]) == row_tree(self.items@[k]),
            decreases self.items@.len() - i,
        {
            let row = &self.items[i];
            assert(decreases_to!(self => self.items));
            assert(decreases_to!(self.items => self.items@));
            assert(decreases_to!(self.items@ => self.items@[i as int]));
            let c = row.clone_row();
            items.push(c);
            i = i + 1;
        }
        let r = MoonMenuLevel { items, layout: self.layout };
        proof {
            lemma_rows_tree_eq(r.items@, self.items@);
        }
        assert(kinds_of(r.items@) =~= kinds_of(self.items@)) by {
            assert forall|k: int| 0 <= k < r.items@.len() implies #[trigger] r.items@[k].kind == self.items@[k].kind by {
                assert(row_view(r.items@[k]) == row_view(self.items@[k]));
            }
        }
        r
    }
}

impl Clone for MoonMenuItem {
    fn clone(&self) -> (r: MoonMenuItem)
        ensures
            row_tree(r) == row_tree(*self),
            row_view(r) == row_view(*self),
            r.submenu.fingerprint() == self.submenu.fingerprint(),
            kinds_of(r.submenu.rows()) == kinds_of(self.submenu.rows()),
    {
        self.clone_row()
    }
}

impl Clone for MoonMenuLevel {
    fn clone(&self) -> (r: MoonMenuLevel)
        ensures
            rows_tree(r.rows()) == rows_tree(self.rows()),
            r.fingerprint() == self.fingerprint(),
            kinds_of(r.rows()) == kinds_of(self.rows()),
    {
        self.clone_level()
    }
}

} // verus!
