use std::cell::Cell;

use moon_ui_components::dock::area::{DockArea, DockEvent, DockPlacement, DockRoot, DockSide};
use moon_ui_components::dock::item::{DockItem, DockPanel, TileMeta};
use moon_ui_components::dock::named::{split_key_text, DockNamedLayout};
use moon_ui_components::dock::state::{DockAreaState, PanelInfo, PanelState};
use moon_ui_components::dock::topology::DockTopologyByName;

fn panel(id: u64, name: &str) -> DockPanel {
    DockPanel::new(id, name.to_string())
}

fn default_tile_meta(ix: usize) -> TileMeta {
    TileMeta {
        x: (12.0 + ix as f32 * 18.0).to_bits(),
        y: (12.0 + ix as f32 * 18.0).to_bits(),
        w: 320.0f32.to_bits(),
        h: 200.0f32.to_bits(),
        z_index: ix,
    }
}

fn leaf(name: &str) -> PanelState {
    PanelState::new(name.to_string())
}

fn names(items: &[DockPanel]) -> Vec<&str> {
    items.iter().map(|p| p.name.as_str()).collect()
}

fn stack_sizes(state: &PanelState) -> (&Vec<u32>, usize) {
    match &state.info {
        PanelInfo::Stack { sizes, axis } => (sizes, *axis),
        other => panic!("expected a stack payload, got {:?}", other),
    }
}

#[test]
fn panel_info_builders_record_their_kind() {
    assert_eq!(PanelInfo::tabs(3).active_index(), Some(3));
    assert_eq!(PanelInfo::panel(serde_json::Value::Null).active_index(), None);
    assert!(matches!(PanelInfo::default(), PanelInfo::Panel(serde_json::Value::Null)));
    let horizontal = PanelInfo::stack(vec![1.0f32.to_bits()], true);
    assert!(matches!(horizontal, PanelInfo::Stack { axis: 0, .. }));
    assert_eq!(horizontal.active_index(), None);
    let vertical = PanelInfo::stack(Vec::new(), false);
    assert!(matches!(vertical, PanelInfo::Stack { axis: 1, .. }));
}

#[test]
fn panel_state_builders_append_children_and_replace_the_payload() {
    let empty = PanelState::empty();
    assert!(empty.panel_name.is_empty() && empty.children.is_empty());
    assert!(matches!(empty.info, PanelInfo::Panel(serde_json::Value::Null)));
    let state = PanelState::new("tabs".to_string())
        .child(leaf("chart"))
        .child(leaf("orders"))
        .info(PanelInfo::tabs(1));
    assert_eq!(state.panel_name, "tabs");
    assert_eq!(state.children.iter().map(|c| c.panel_name.as_str()).collect::<Vec<_>>(), vec!["chart", "orders"]);
    assert_eq!(state.info.active_index(), Some(1));
}

#[test]
fn restoring_flattens_tab_children_and_keeps_only_positive_sizes() {
    let nested = PanelState::new("stack".to_string())
        .child(leaf("b"))
        .child(leaf("c"))
        .info(PanelInfo::stack(Vec::new(), false));
    let state = PanelState::new("stack".to_string())
        .child(PanelState::new("tabs".to_string()).child(leaf("a")).child(nested).info(PanelInfo::tabs(2)))
        .child(leaf("d"))
        .child(leaf("e"))
        .child(leaf("f"))
        .info(PanelInfo::stack(
            vec![200.0f32.to_bits(), 0.0f32.to_bits(), (-5.0f32).to_bits(), f32::NAN.to_bits(), f32::INFINITY.to_bits()],
            true,
        ));
    let next_id = Cell::new(0u64);
    let item = state.to_item(&|s: &PanelState| {
        next_id.set(next_id.get() + 1);
        DockPanel::new(next_id.get(), s.panel_name.clone())
    });
    let DockItem::Split { horizontal, items, sizes } = item else {
        panic!("a stack payload restores as a split");
    };
    assert!(horizontal);
    assert_eq!(sizes, vec![Some(200.0f32.to_bits()), None, None, None, Some(f32::INFINITY.to_bits())]);
    assert_eq!(items.len(), 4);
    let DockItem::Tabs { items: tab_items, active_ix } = &items[0] else {
        panic!("a tabs payload restores as a tab group");
    };
    assert_eq!(names(tab_items), vec!["a", "b", "c"]);
    assert_eq!(tab_items.iter().map(|p| p.id).collect::<Vec<_>>(), vec![1, 2, 3]);
    assert_eq!(*active_ix, 2);
    assert!(matches!(&items[3], DockItem::Panel(p) if p.name == "f" && p.id == 6));
}

#[test]
fn restoring_with_panels_needs_one_panel_per_leaf() {
    let state = PanelState::new("tiles".to_string())
        .child(leaf("a"))
        .child(leaf("b"))
        .info(PanelInfo::Tiles { metas: vec![default_tile_meta(0)] });
    assert!(state.restore_with_panels(&vec![panel(1, "a")]).is_none());
    assert!(state.restore_with_panels(&vec![panel(1, "a"), panel(2, "b"), panel(3, "c")]).is_none());
    let Some(DockItem::Tiles { items, metas }) = state.restore_with_panels(&vec![panel(7, "x"), panel(8, "y")]) else {
        panic!("a tiles payload restores as tiles");
    };
    assert_eq!(items.iter().map(|p| p.id).collect::<Vec<_>>(), vec![7, 8]);
    assert_eq!(metas, vec![default_tile_meta(0)]);
}

#[test]
fn dump_keeps_one_size_per_split_child_and_restores_the_layout() {
    let chart = panel(1, "chart");
    let orders = panel(2, "orders");
    let report = panel(3, "report");
    let tree = DockItem::Split {
        horizontal: false,
        items: vec![
            DockItem::Tabs { items: vec![chart.clone(), orders.clone()], active_ix: 1 },
            DockItem::Panel(report.clone()),
        ],
        sizes: vec![None],
    };
    let state = tree.dump(&|p: &DockPanel| PanelState::new(p.name.clone()));
    assert_eq!(state.panel_name, "stack");
    let (sizes, axis) = stack_sizes(&state);
    assert_eq!(axis, 1);
    assert_eq!(sizes, &vec![0, 0], "a flexible or missing slot persists as zero, one per child");
    assert_eq!(state.children[0].panel_name, "tabs");
    assert_eq!(state.children[0].info.active_index(), Some(1));
    assert_eq!(
        state.children[0].children.iter().map(|c| c.panel_name.as_str()).collect::<Vec<_>>(),
        vec!["chart", "orders"]
    );
    assert_eq!(state.children[1].panel_name, "report");

    let live = vec![chart, orders, report];
    let restored = state.to_item(&|s: &PanelState| live.iter().find(|p| p.name == s.panel_name).unwrap().clone());
    let DockItem::Split { horizontal, items, sizes } = restored else {
        panic!("the split must come back");
    };
    assert!(!horizontal);
    assert_eq!(sizes, vec![None, None]);
    assert!(matches!(&items[0], DockItem::Tabs { items, active_ix: 1 } if items.iter().map(|p| p.id).collect::<Vec<_>>() == vec![1, 2]));
    assert!(matches!(&items[1], DockItem::Panel(p) if p.id == 3));
}

#[test]
fn a_fixed_split_size_survives_the_round_trip_in_its_slot() {
    let tree = DockItem::Split {
        horizontal: true,
        items: vec![DockItem::Panel(panel(1, "a")), DockItem::Panel(panel(2, "b")), DockItem::Panel(panel(3, "c"))],
        sizes: vec![None, Some(180.0f32.to_bits()), None],
    };
    let state = tree.dump(&|p: &DockPanel| PanelState::new(p.name.clone()));
    assert_eq!(stack_sizes(&state).0, &vec![0, 180.0f32.to_bits(), 0]);
    let restored = state.to_item(&|s: &PanelState| DockPanel::new(0, s.panel_name.clone()));
    let DockItem::Split { sizes, .. } = restored else {
        panic!("the split must come back");
    };
    assert_eq!(sizes, vec![None, Some(180.0f32.to_bits()), None], "the fixed size stays with the second child");
}

#[test]
fn an_empty_tree_persists_as_an_unnamed_leaf() {
    let state = DockItem::Empty.dump(&|p: &DockPanel| PanelState::new(p.name.clone()));
    assert!(state.panel_name.is_empty() && state.children.is_empty());
    assert!(matches!(state.info, PanelInfo::Panel(serde_json::Value::Null)));
    let restored = state.to_item(&|s: &PanelState| DockPanel::new(9, s.panel_name.clone()));
    assert!(matches!(restored, DockItem::Panel(p) if p.name.is_empty() && p.id == 9));
}

#[test]
fn dock_area_dump_and_reload_keep_sides_sizes_and_open_state() {
    let mut area = DockArea::new("dock".to_string(), Some(3));
    area.set_center(DockItem::Panel(panel(1, "chart")));
    area.add_panel(panel(2, "orders"), DockPlacement::Left, Some(250.0f32.to_bits()));
    area.set_dock_open(DockPlacement::Left, false);
    let state = area.dump(&|p: &DockPanel| PanelState::new(p.name.clone()));
    assert_eq!(state.version, Some(3));
    assert_eq!(state.center.panel_name, "chart");
    let left = state.left_dock.as_ref().expect("the left dock persists");
    assert_eq!(left.placement, DockPlacement::Left);
    assert_eq!(left.size, 250.0f32.to_bits());
    assert!(!left.open);
    assert!(state.right_dock.is_none() && state.bottom_dock.is_none());

    let next_id = Cell::new(100u64);
    let build = |s: &PanelState| {
        next_id.set(next_id.get() + 1);
        DockPanel::new(next_id.get(), s.panel_name.clone())
    };
    let restored = DockArea::from_state("copy".to_string(), state, &build);
    assert_eq!(restored.id, "copy");
    assert_eq!(restored.version, Some(3));
    assert!(matches!(&restored.center, DockItem::Panel(p) if p.name == "chart"));
    let Some(DockSide { item: DockItem::Panel(p), size, open }) = &restored.left else {
        panic!("the left dock is restored");
    };
    assert_eq!(p.name, "orders");
    assert_eq!(*size, 250.0f32.to_bits());
    assert!(!*open);
    assert!(restored.events.is_empty() && restored.zoomed_panel.is_none());

    let mut other = DockArea::new("other".to_string(), None);
    other.set_layout_editable(false);
    other.set_center(DockItem::Panel(panel(5, "report")));
    other.toggle_zoom_panel("report".to_string());
    let events_before = other.events.len();
    let state = restored.dump(&|p: &DockPanel| PanelState::new(p.name.clone()));
    assert_eq!(other.load(state, &build), Ok(()));
    assert_eq!(other.id, "other");
    assert_eq!(other.version, Some(3));
    assert!(other.zoomed_panel.is_none(), "loading clears the zoom");
    assert!(!other.layout_editable, "loading keeps the interaction policy");
    assert_eq!(other.events.len(), events_before, "loading announces no layout change");
    assert!(matches!(&other.center, DockItem::Panel(p) if p.name == "chart"));
    assert!(other.left.is_some());
}

#[test]
fn dock_area_state_defaults_to_an_empty_center() {
    let state = DockAreaState::default();
    assert!(state.version.is_none());
    assert!(state.center.panel_name.is_empty());
    assert!(state.left_dock.is_none() && state.right_dock.is_none() && state.bottom_dock.is_none());
}

#[test]
fn dock_item_builders_make_the_expected_nodes() {
    assert!(matches!(DockItem::tab(panel(1, "a")), DockItem::Panel(p) if p.id == 1));
    assert!(matches!(DockItem::tabs(vec![panel(1, "a"), panel(2, "b")]), DockItem::Tabs { active_ix: 0, .. }));
    assert!(matches!(DockItem::h_split(vec![DockItem::Empty]), DockItem::Split { horizontal: true, ref sizes, .. } if sizes.is_empty()));
    assert!(matches!(DockItem::v_split(Vec::new()), DockItem::Split { horizontal: false, .. }));
    assert!(matches!(
        DockItem::split_with_sizes(true, vec![DockItem::Empty], vec![Some(3)]),
        DockItem::Split { horizontal: true, ref sizes, .. } if sizes == &vec![Some(3)]
    ));
    assert!(matches!(DockItem::tiles(vec![panel(1, "a")], Vec::new()), DockItem::Tiles { .. }));
    assert!(matches!(DockItem::split(false, Vec::new()), DockItem::Split { horizontal: false, .. }));
}

#[test]
fn split_keys_name_the_root_and_the_path() {
    assert_eq!(split_key_text(DockRoot::Center, &Vec::new()), "center");
    assert_eq!(split_key_text(DockRoot::Bottom, &Vec::new()), "bottom");
    assert_eq!(split_key_text(DockRoot::Left, &vec![0, 12, 3]), "left:0.12.3");
    assert_eq!(split_key_text(DockRoot::Right, &vec![7]), "right:7");
}

#[test]
fn named_layout_records_active_tabs_by_key_and_the_zoom() {
    let mut area = DockArea::new("dock".to_string(), None);
    area.set_center(DockItem::Split {
        horizontal: true,
        items: vec![
            DockItem::Panel(panel(1, "chart")),
            DockItem::Tabs { items: vec![panel(2, "orders"), panel(3, "report")], active_ix: 7 },
        ],
        sizes: Vec::new(),
    });
    area.toggle_zoom_panel("chart".to_string());
    let layout = area.named_layout(default_tile_meta);
    assert_eq!(layout.active_tabs, vec![("center:1".to_string(), "report".to_string())]);
    assert_eq!(layout.zoomed_panel.as_deref(), Some("chart"));
    assert_eq!(layout.panel_names(default_tile_meta), vec!["chart", "orders", "report"]);
}

#[test]
fn named_layout_reuses_instances_and_drops_auto_only_panels_here() {
    let mut area = DockArea::new("snapshot-dock".to_string(), None);
    area.set_center(DockItem::Tabs { items: vec![panel(2, "orders"), panel(1, "report")], active_ix: 0 });
    area.toggle_zoom_panel("report".to_string());
    let snapshot = area.named_layout(default_tile_meta);

    area.events.clear();
    let topology = DockTopologyByName::tab_preset(vec!["report".to_string(), "orders".to_string()]);
    assert!(area.apply_topology_by_name(&topology, vec![panel(3, "auto-only")], default_tile_meta));
    assert_eq!(area.events.iter().filter(|e| matches!(e, DockEvent::LayoutChanged)).count(), 1);
    assert!(area.find_panel_named("auto-only").is_some());

    assert!(area.apply_named_layout(&snapshot, Vec::new(), default_tile_meta));
    assert_eq!(area.events.iter().filter(|e| matches!(e, DockEvent::LayoutChanged)).count(), 2);
    assert_eq!(area.find_panel_named("report").map(|p| p.id), Some(1));
    assert_eq!(area.find_panel_named("orders").map(|p| p.id), Some(2));
    assert!(area.find_panel_named("auto-only").is_none());
    assert_eq!(area.zoomed_panel.as_deref(), Some("report"));
    let DockItem::Tabs { items, active_ix } = &area.center else {
        panic!("the captured tab group must come back");
    };
    assert_eq!(names(items), vec!["orders", "report"]);
    assert_eq!(*active_ix, 0);

    assert!(!area.apply_named_layout(&snapshot, Vec::new(), default_tile_meta), "restoring the same layout changes nothing");
    assert_eq!(area.events.iter().filter(|e| matches!(e, DockEvent::LayoutChanged)).count(), 2);
}

#[test]
fn a_named_layout_without_the_zoomed_panel_clears_the_zoom() {
    let mut area = DockArea::new("zoom-removal-dock".to_string(), None);
    area.set_center(DockItem::Panel(panel(1, "chart")));
    area.toggle_zoom_panel("chart".to_string());
    let layout = DockNamedLayout {
        topology: DockTopologyByName::tab_preset(vec!["report".to_string()]),
        active_tabs: Vec::new(),
        zoomed_panel: Some("chart".to_string()),
    };
    assert!(area.apply_named_layout(&layout, vec![panel(2, "report")], default_tile_meta));
    assert!(area.zoomed_panel.is_none());
    assert!(area.find_panel_named("chart").is_none());
    assert!(matches!(&area.center, DockItem::Panel(p) if p.id == 2));
}

#[test]
fn named_active_tabs_select_by_name_and_fall_back_to_the_first_tab() {
    let mut area = DockArea::new("dock".to_string(), None);
    area.set_center(DockItem::Tabs { items: vec![panel(1, "a"), panel(2, "b"), panel(3, "c")], active_ix: 0 });
    let mut layout = area.named_layout(default_tile_meta);
    layout.active_tabs = vec![("center".to_string(), "c".to_string())];
    assert!(area.apply_named_layout(&layout, Vec::new(), default_tile_meta));
    assert!(matches!(&area.center, DockItem::Tabs { active_ix: 2, .. }));
    layout.active_tabs = vec![("center".to_string(), "missing".to_string())];
    assert!(area.apply_named_layout(&layout, Vec::new(), default_tile_meta), "an unknown name leaves the rebuilt group on its first tab");
    assert!(matches!(&area.center, DockItem::Tabs { active_ix: 0, .. }));
}

#[test]
fn a_captured_layout_restored_onto_another_dock_comes_back_whole() {
    let mut source = DockArea::new("source".to_string(), None);
    source.set_center(DockItem::Split {
        horizontal: true,
        items: vec![
            DockItem::Panel(panel(1, "chart")),
            DockItem::Tabs { items: vec![panel(2, "orders"), panel(3, "report")], active_ix: 1 },
        ],
        sizes: vec![None, None],
    });
    source.left = Some(DockSide {
        item: DockItem::Tabs { items: vec![panel(4, "news"), panel(5, "alerts")], active_ix: 1 },
        size: 250.0f32.to_bits(),
        open: true,
    });
    source.toggle_zoom_panel("report".to_string());
    let snapshot = source.named_layout(default_tile_meta);

    let mut target = DockArea::new("target".to_string(), None);
    target.set_center(DockItem::Tabs {
        items: vec![panel(5, "alerts"), panel(3, "report"), panel(6, "extra"), panel(1, "chart")],
        active_ix: 0,
    });
    assert!(target.apply_named_layout(&snapshot, vec![panel(2, "orders"), panel(4, "news")], default_tile_meta));

    let restored = target.named_layout(default_tile_meta);
    assert!(restored.topology.same_as(&snapshot.topology, default_tile_meta));
    assert_eq!(restored.active_tabs, snapshot.active_tabs);
    assert_eq!(
        restored.active_tabs,
        vec![("center:1".to_string(), "report".to_string()), ("left".to_string(), "alerts".to_string())]
    );
    assert_eq!(restored.zoomed_panel.as_deref(), Some("report"));
    assert!(target.find_panel_named("extra").is_none());
    assert!(!target.apply_named_layout(&snapshot, Vec::new(), default_tile_meta), "the restored dock already matches");
}

#[test]
fn a_captured_layout_restores_onto_a_dock_whose_pinned_panel_already_leads() {
    let mut source = DockArea::new("source".to_string(), None);
    source.set_center(DockItem::Split {
        horizontal: true,
        items: vec![
            DockItem::Tabs { items: vec![panel(1, "chart"), panel(2, "orders")], active_ix: 1 },
            DockItem::Panel(panel(3, "report")),
        ],
        sizes: vec![None, None],
    });
    let snapshot = source.named_layout(default_tile_meta);

    let mut target = DockArea::new("target".to_string(), None);
    target.set_center(DockItem::Tabs {
        items: vec![panel(3, "report"), panel(2, "orders"), panel(1, "chart")],
        active_ix: 2,
    });
    assert!(target.set_pinned_leading_panels(vec!["chart".to_string()]));
    assert!(target.apply_named_layout(&snapshot, Vec::new(), default_tile_meta));

    let restored = target.named_layout(default_tile_meta);
    assert!(restored.topology.same_as(&snapshot.topology, default_tile_meta));
    assert_eq!(restored.active_tabs, vec![("center:0".to_string(), "orders".to_string())]);
    assert_eq!(restored.active_tabs, snapshot.active_tabs);
    assert!(!target.apply_named_layout(&snapshot, Vec::new(), default_tile_meta));
}

#[test]
fn a_captured_layout_with_a_lone_tab_restores_its_topology_and_zoom() {
    let mut source = DockArea::new("source".to_string(), None);
    source.set_center(DockItem::Split {
        horizontal: false,
        items: vec![
            DockItem::Tabs { items: vec![panel(1, "chart")], active_ix: 0 },
            DockItem::Panel(panel(2, "report")),
        ],
        sizes: Vec::new(),
    });
    source.toggle_zoom_panel("report".to_string());
    let snapshot = source.named_layout(default_tile_meta);

    let mut target = DockArea::new("target".to_string(), None);
    target.set_center(DockItem::Tabs { items: vec![panel(2, "report"), panel(1, "chart")], active_ix: 0 });
    assert!(target.apply_named_layout(&snapshot, Vec::new(), default_tile_meta));
    let restored = target.named_layout(default_tile_meta);
    assert!(restored.topology.same_as(&snapshot.topology, default_tile_meta));
    assert_eq!(restored.zoomed_panel.as_deref(), Some("report"));
    assert!(restored.active_tabs.is_empty(), "the lone tab comes back as a plain panel");
}
