use moon_ui_components::dock::area::DockRoot;
use moon_ui_components::dock::item::TileMeta;
use moon_ui_components::dock::presentation::{
    panel_controls, pinned_marks, shown_tab, split_slot_sizes, tab_drop_action, tile_paint_order,
    PanelControls, TabDropAction, TabRuntimeState,
};

fn names(v: &[&str]) -> Vec<String> {
    v.iter().map(|s| s.to_string()).collect()
}

fn meta(z_index: usize) -> TileMeta {
    TileMeta { x: 0, y: 0, w: 320.0f32.to_bits(), h: 200.0f32.to_bits(), z_index }
}

#[test]
fn a_group_shows_its_active_tab_clamped_to_the_last() {
    assert_eq!(shown_tab(1, 3), 1);
    assert_eq!(shown_tab(7, 3), 2);
    assert_eq!(shown_tab(4, 0), 0);
}

#[test]
fn pinned_tabs_are_marked_and_the_last_of_their_run_closes_it() {
    let marks = pinned_marks(&names(&["chart", "news", "orders"]), &names(&["news", "chart"]));
    assert_eq!(marks, vec![(true, false), (true, true), (false, false)]);
    let lone = pinned_marks(&names(&["orders", "chart"]), &names(&["chart"]));
    assert_eq!(lone, vec![(false, false), (true, true)]);
    assert!(pinned_marks(&Vec::new(), &names(&["chart"])).is_empty());
}

#[test]
fn a_dropped_tab_is_reordered_moved_in_or_ignored() {
    assert_eq!(tab_drop_action(true, DockRoot::Center, &vec![0, 1], DockRoot::Center, &vec![0, 1]), TabDropAction::Reorder);
    assert_eq!(tab_drop_action(true, DockRoot::Left, &vec![0, 1], DockRoot::Center, &vec![0, 1]), TabDropAction::MoveHere);
    assert_eq!(tab_drop_action(true, DockRoot::Center, &vec![0], DockRoot::Center, &vec![0, 1]), TabDropAction::MoveHere);
    assert_eq!(tab_drop_action(false, DockRoot::Center, &vec![0, 1], DockRoot::Center, &vec![0, 1]), TabDropAction::Ignore);
}

#[test]
fn panel_controls_follow_the_policy_and_the_zoomed_panel() {
    let zoomed = Some("chart".to_string());
    assert_eq!(
        panel_controls(true, true, true, true, true, true, true, &zoomed, &"chart".to_string()),
        PanelControls { detach: true, zoom: true, zoomed: true, close: true }
    );
    assert_eq!(
        panel_controls(true, false, true, true, true, true, true, &zoomed, &"news".to_string()),
        PanelControls { detach: false, zoom: true, zoomed: false, close: false }
    );
    assert_eq!(
        panel_controls(true, true, false, true, true, false, true, &None, &"news".to_string()),
        PanelControls { detach: false, zoom: false, zoomed: false, close: true }
    );
    assert_eq!(
        panel_controls(false, true, true, true, true, true, true, &zoomed, &"chart".to_string()),
        PanelControls { detach: false, zoom: false, zoomed: true, close: false }
    );
}

#[test]
fn a_fully_sized_split_lets_its_first_slot_flex() {
    let s = |x: f32| Some(x.to_bits());
    assert_eq!(split_slot_sizes(&vec![s(100.0), s(200.0)], 2), vec![None, s(200.0)]);
    assert_eq!(split_slot_sizes(&vec![s(100.0), None], 2), vec![s(100.0), None]);
    assert_eq!(split_slot_sizes(&vec![s(100.0)], 3), vec![s(100.0), None, None]);
    assert_eq!(split_slot_sizes(&vec![s(100.0)], 1), vec![s(100.0)]);
}

#[test]
fn tiles_paint_by_stacking_index_with_ties_in_position_order() {
    assert_eq!(tile_paint_order(&vec![meta(2), meta(0), meta(1)], 3), vec![1, 2, 0]);
    assert_eq!(tile_paint_order(&vec![meta(5), meta(5), meta(0)], 3), vec![2, 0, 1]);
    // a tile without stored geometry stacks by its position
    assert_eq!(tile_paint_order(&vec![meta(9)], 3), vec![1, 2, 0]);
    assert!(tile_paint_order(&Vec::new(), 0).is_empty());
}

#[test]
fn a_tab_group_announces_its_front_tab_once_per_change() {
    let tabs = names(&["orders", "chart"]);
    let mut state = TabRuntimeState::new(1);
    assert_eq!(state.frame(true, 1, &tabs), (1, true));
    assert_eq!(state.frame(true, 1, &tabs), (1, false), "a repeated frame announces nothing");
    assert_eq!(state.frame(true, 0, &tabs), (0, true), "the dock moved to another tab");
    let more = names(&["orders", "chart", "news"]);
    assert_eq!(state.frame(true, 0, &more), (0, true), "a tab joined while the front stayed");
    assert_eq!(state.frame(false, 2, &more), (0, false), "an undocked group keeps its own tab");
}

#[test]
fn a_synced_group_is_quiet_and_a_reopened_one_announces_again() {
    let tabs = names(&["orders", "chart"]);
    let mut state = TabRuntimeState::new(0);
    assert_eq!(state.synced(1, &tabs), 1);
    assert_eq!(state.frame(true, 1, &tabs), (1, false));
    assert_eq!(state.synced(9, &tabs), 1, "an index past the end syncs the last tab");
    state.mark_inactive(1, 2);
    assert_eq!(state.active_ix, 1);
    assert_eq!(state.notified_active, Some((None, 2)));
    assert_eq!(state.frame(true, 1, &tabs), (1, true), "shown again, the group announces");
}

#[test]
fn a_standalone_group_keeps_the_tab_the_user_picked_across_renders() {
    let tabs = names(&["first", "second"]);
    let mut state = TabRuntimeState::new(0);
    assert_eq!(state.frame(false, 0, &tabs), (0, true), "the first render announces the first tab");
    // the user clicks tab 1
    state.active_ix = 1;
    assert_eq!(state.frame(false, 0, &tabs), (1, true), "the click brings the second tab to the front once");
    assert_eq!(state.frame(false, 0, &tabs), (1, false), "later renders of the same builder keep it and stay quiet");
    assert_eq!(state.frame(false, 0, &tabs), (1, false));
}
