use moon_ui_components::foundation::MoonSize::{Lg, Md, Sm, Xl, Xs, Xxl};
use moon_ui_components::foundation::{MoonSize, Theme, ThemeMode};

#[test]
fn nearest_selects_supported_tiers_by_ordinal_distance() {
    for (requested, expected) in [(Xs, Sm), (Sm, Sm), (Md, Md), (Lg, Md), (Xl, Md), (Xxl, Md)] {
        assert_eq!(requested.nearest(&[Md, Sm]), expected);
    }
    assert_eq!(Sm.nearest(&[Xxl, Md, Xl]), Md);
    assert_eq!(Xl.nearest(&[Xs, Sm, Xxl]), Xxl);
    assert_eq!(Xs.nearest(&[Lg]), Lg);
    assert_eq!(Xxl.nearest(&[Sm]), Sm);
    assert_eq!(Md.nearest(&[Xxl, Md, Xs, Md]), Md);
}

#[test]
fn nearest_breaks_ties_down_independent_of_order() {
    for supported in [[Md, Xs], [Xs, Md]] {
        assert_eq!(Sm.nearest(&supported), Xs);
    }
    for supported in [[Xxl, Sm], [Sm, Xxl]] {
        assert_eq!(Lg.nearest(&supported), Sm);
    }
    assert_eq!(Md.nearest(&[Lg, Sm, Lg]), Sm);
    assert_eq!(Xl.nearest(&[Xxl, Lg]), Lg);
}

#[test]
fn nearest_is_the_same_for_permuted_and_repeated_tiers() {
    assert_eq!(Xl.nearest(&[Sm, Xs, Lg]), Xl.nearest(&[Lg, Lg, Xs, Sm, Sm]));
}

#[test]
fn defaults_are_medium_and_dark() {
    assert_eq!(MoonSize::default(), MoonSize::Md);
    assert_eq!(ThemeMode::default(), ThemeMode::Dark);
    assert_eq!(Theme::default().mode, ThemeMode::Dark);
    assert_eq!(MoonSize::Xxl.rank(), 5);
}
