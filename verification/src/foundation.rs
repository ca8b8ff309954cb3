//! The shared size scale and theme selection of the Moon components.

use vstd::prelude::*;

verus! {

/// The shared size scale for Moon components, from smallest to largest.
///
/// A component renders only the tiers it supports; any other tier resolves to the
/// nearest supported one instead of failing.
#[derive(Clone, Copy, Debug, PartialEq, Eq, Structural, Hash)]
pub enum MoonSize {
    Xs,
    Sm,
    Md,
    Lg,
    Xl,
    Xxl,
}

impl MoonSize {
    /// Position of the tier in the size scale, counted from `Xs`.
    pub open spec fn ordinal(self) -> int {
        match self {
            MoonSize::Xs => 0,
            MoonSize::Sm => 1,
            MoonSize::Md => 2,
            MoonSize::Lg => 3,
            MoonSize::Xl => 4,
            MoonSize::Xxl => 5,
        }
    }

    /// Executable position of the tier in the size scale.
    pub fn rank(self) -> (r: u8)
        ensures
            r as int == self.ordinal(),
    {
        match self {
            MoonSize::Xs => 0,
            MoonSize::Sm => 1,
            MoonSize::Md => 2,
            MoonSize::Lg => 3,
            MoonSize::Xl => 4,
            MoonSize::Xxl => 5,
        }
    }
}

/// Steps between two tiers of the size scale.
pub open spec fn tier_distance(a: MoonSize, b: MoonSize) -> int {
    if a.ordinal() >= b.ordinal() {
        a.ordinal() - b.ordinal()
    } else {
        b.ordinal() - a.ordinal()
    }
}

/// Whether `r` is the tier of `supported` nearest to `requested`, equal distances going to
/// the smaller tier.
pub open spec fn is_nearest(requested: MoonSize, supported: Seq<MoonSize>, r: MoonSize) -> bool {
    &&& supported.contains(r)
    &&& forall|k: int| 0 <= k < supported.len() ==> {
        let t = #[trigger] supported[k];
        tier_distance(requested, r) < tier_distance(requested, t)
            || (tier_distance(requested, r) == tier_distance(requested, t) && r.ordinal() <= t.ordinal())
    }
}

impl MoonSize {
    /// The supported tier nearest to `self` by number of steps in the size scale.
    ///
    /// Equal distances resolve to the smaller tier. `supported` may be unordered or contain
    /// duplicates; neither changes the result. Distance is ordinal, not measured in pixels.
    /// `supported` must not be empty.
    pub fn nearest(self, supported: &[MoonSize]) -> (r: MoonSize)
        requires
            supported@.len() > 0,
        ensures
            is_nearest(self, supported@, r),
    {
        let me = self.rank();
        let mut best = supported[0];
        let mut best_rank = best.rank();
        let mut best_dist: u8 = if me >= best_rank { me - best_rank } else { best_rank - me };
        let ghost mut bi: int = 0;
        let mut i: usize = 1;
        while i < supported.len()
            invariant
                1 <= i <= supported@.len(),
                me as int == self.ordinal(),
                best_rank as int == best.ordinal(),
                best_dist as int == tier_distance(self, best),
                0 <= bi < i,
                supported@[bi] == best,
                forall|k: int| 0 <= k < i ==> {
                    let t = #[trigger] supported@[k];
                    tier_distance(self, best) < tier_distance(self, t)
                        || (tier_distance(self, best) == tier_distance(self, t) && best.ordinal() <= t.ordinal())
                },
            decreases supported@.len() - i,
        {
            let t = supported[i];
            let tr = t.rank();
            let td: u8 = if me >= tr { me - tr } else { tr - me };
            if td < best_dist || (td == best_dist && tr < best_rank) {
                proof { bi = i as int; }
                best = t;
                best_rank = tr;
                best_dist = td;
            }
            i = i + 1;
        }
        assert(supported@.contains(best)) by {
            assert(supported@[bi] == best);
        }
        best
    }
}

/// A tier name that may stand for the scale of a component.
pub type Size = MoonSize;

/// Components that render at a tier of a size scale.
pub trait Sizable<S = MoonSize>: Sized {
    fn size(self, size: S) -> Self;
}

/// Components that can be disabled.
pub trait Disableable: Sized {
    fn disabled(self, disabled: bool) -> Self;
}

/// The colour mode a theme is shown in.
#[derive(Clone, Copy, Debug, PartialEq, Eq, Structural)]
pub enum ThemeMode {
    Light,
    Dark,
    System,
}

impl Default for ThemeMode {
    fn default() -> (r: ThemeMode)
        ensures
            r == ThemeMode::Dark,
    {
        ThemeMode::Dark
    }
}

/// The theme selection of an application.
#[derive(Clone, Copy, Debug, PartialEq, Eq, Structural)]
pub struct Theme {
    pub mode: ThemeMode,
}

impl Default for Theme {
    fn default() -> (r: Theme)
        ensures
            r.mode == ThemeMode::Dark,
    {
        Theme { mode: ThemeMode::Dark }
    }
}

impl Default for MoonSize {
    fn default() -> (r: MoonSize)
        ensures
            r == MoonSize::Md,
    {
        MoonSize::Md
    }
}

/// Two tiers that are both nearest to a request among the same supported tiers are the same
/// tier: the nearest tier is well defined.
pub proof fn lemma_nearest_is_unique(requested: MoonSize, supported: Seq<MoonSize>, a: MoonSize, b: MoonSize)
    requires
        is_nearest(requested, supported, a),
        is_nearest(requested, supported, b),
    ensures
        a == b,
{
    let ia = supported.index_of(a);
    let ib = supported.index_of(b);
    assert(supported[ia] == a);
    assert(supported[ib] == b);
}

/// The nearest tier depends only on which tiers are supported, not on their order or on
/// repetitions.
pub proof fn lemma_nearest_ignores_order_and_duplicates(
    requested: MoonSize,
    s1: Seq<MoonSize>,
    s2: Seq<MoonSize>,
    a: MoonSize,
    b: MoonSize,
)
    requires
        s1.to_set() == s2.to_set(),
        is_nearest(requested, s1, a),
        is_nearest(requested, s2, b),
    ensures
        a == b,
{
    assert(s1.to_set().contains(a));
    assert(s2.to_set().contains(a));
    assert(s2.to_set().contains(b));
    assert(s1.to_set().contains(b));
    let ia = s2.index_of(a);
    let ib = s1.index_of(b);
    assert(s2[ia] == a);
    assert(s1[ib] == b);
    assert(s1.contains(a));
    let ja = s1.index_of(a);
    assert(s1[ja] == a);
    assert(s2.contains(b));
    let jb = s2.index_of(b);
    assert(s2[jb] == b);
}

} // verus!
