use moon_ui_components::dock::area::{DockArea, DockPlacement, DockRoot};
use moon_ui_components::dock::item::{DockItem, DockPanel, TileMeta};

fn panel(id: u64, name: &str) -> DockPanel {
    DockPanel::new(id, name.to_string())
}

fn plan(area: &DockArea) -> Vec<(u64, bool)> {
    area.activation_plan().iter().map(|(p, active)| (p.id, *active)).collect()
}

#[test]
fn visible_tab_groups_activate_only_their_shown_panel() {
    let mut area = DockArea::new("dock".to_string(), None);
    area.set_center(DockItem::Split {
        horizontal: true,
        items: vec![
            DockItem::Tabs { items: vec![panel(1, "orders"), panel(2, "chart")], active_ix: 9 },
            DockItem::Tiles { items: vec![panel(3, "a"), panel(4, "b")], metas: Vec::new() },
            DockItem::Panel(panel(5, "report")),
        ],
        sizes: Vec::new(),
    });
    assert_eq!(plan(&area), vec![(1, false), (2, true), (3, true), (4, true), (5, true)]);
}

#[test]
fn closed_side_docks_report_their_panels_inactive() {
    let mut area = DockArea::new("dock".to_string(), None);
    area.set_center(DockItem::Panel(panel(1, "chart")));
    area.add_panel(panel(2, "orders"), DockPlacement::Left, None);
    area.add_panel(panel(3, "log"), DockPlacement::Bottom, None);
    area.set_dock_open(DockPlacement::Bottom, false);
    assert_eq!(plan(&area), vec![(1, true), (2, true), (3, false)]);
}

#[test]
fn zoomed_layout_activates_only_the_visible_zoom_surface() {
    let mut area = DockArea::new("dock".to_string(), None);
    area.set_center(DockItem::Tabs { items: vec![panel(1, "orders"), panel(2, "chart")], active_ix: 0 });
    area.add_panel(panel(3, "log"), DockPlacement::Right, None);
    area.toggle_zoom_panel("chart".to_string());
    assert_eq!(plan(&area), vec![(1, false), (2, false), (3, false), (2, true)]);
    area.toggle_zoom_panel("chart".to_string());
    assert_eq!(plan(&area), vec![(1, true), (2, false), (3, true)]);
}

#[test]
fn a_zoom_on_a_missing_panel_shows_the_normal_layout() {
    let mut area = DockArea::new("dock".to_string(), None);
    area.set_center(DockItem::Panel(panel(1, "chart")));
    area.toggle_zoom_panel("gone".to_string());
    assert_eq!(plan(&area), vec![(1, true)]);
}

fn meta(x: f32, y: f32, w: f32, h: f32, z_index: usize) -> TileMeta {
    TileMeta { x: x.to_bits(), y: y.to_bits(), w: w.to_bits(), h: h.to_bits(), z_index }
}

#[test]
fn tile_geometry_updates_pad_missing_tiles_and_compare_as_values() {
    let mut area = DockArea::new("dock".to_string(), None);
    area.set_center(DockItem::Tiles { items: vec![panel(1, "a"), panel(2, "b"), panel(3, "c")], metas: vec![meta(0.0, 0.0, 240.0, 160.0, 0)] });
    area.events.clear();
    assert!(area.update_tile_meta(DockRoot::Center, &Vec::new(), 2, meta(40.0, 8.0, 300.0, 180.0, 2)));
    let DockItem::Tiles { metas, .. } = &area.center else { panic!("tiles stay tiles") };
    assert_eq!(metas.len(), 3);
    assert_eq!(metas[1], meta(12.0, 12.0, 320.0, 200.0, 0), "the gap is padded with the default geometry");
    assert_eq!(metas[2], meta(40.0, 8.0, 300.0, 180.0, 2));
    assert!(area.events.is_empty(), "an update alone announces nothing");
    assert!(!area.update_tile_meta(DockRoot::Center, &Vec::new(), 0, meta(-0.0, 0.0, 240.0, 160.0, 0)), "negative zero equals zero");
    assert!(!area.update_tile_meta(DockRoot::Center, &vec![0], 0, meta(1.0, 1.0, 1.0, 1.0, 0)), "a missing path changes nothing");
}

#[test]
fn tile_drags_apply_only_while_the_layout_is_editable() {
    let mut area = DockArea::new("dock".to_string(), None);
    area.set_center(DockItem::Tiles { items: vec![panel(1, "a")], metas: vec![meta(0.0, 0.0, 240.0, 160.0, 0)] });
    area.events.clear();
    let root = DockRoot::Center;
    assert!(area.apply_tile_drag(root, &Vec::new(), 0, meta(24.0, 0.0, 240.0, 160.0, 0)));
    assert_eq!(area.events.len(), 1);
    assert!(!area.apply_tile_drag(root, &Vec::new(), 0, meta(24.0, 0.0, 240.0, 160.0, 0)), "the same geometry is no change");
    area.set_layout_editable(false);
    assert!(!area.apply_tile_drag(root, &Vec::new(), 0, meta(48.0, 0.0, 240.0, 160.0, 0)));
    assert_eq!(area.events.len(), 1);
    let DockItem::Tiles { metas, .. } = &area.center else { panic!("tiles stay tiles") };
    assert_eq!(metas[0], meta(24.0, 0.0, 240.0, 160.0, 0));
}

#[test]
fn preparing_a_split_resize_pads_sizes_and_picks_the_slot_before_the_handle() {
    let mut area = DockArea::new("dock".to_string(), None);
    area.set_center(DockItem::Split {
        horizontal: false,
        items: vec![DockItem::Panel(panel(1, "a")), DockItem::Panel(panel(2, "b")), DockItem::Panel(panel(3, "c"))],
        sizes: vec![Some(150.0f32.to_bits())],
    });
    assert_eq!(area.prepare_split_resize(DockRoot::Center, &Vec::new(), 0), None);
    assert_eq!(area.prepare_split_resize(DockRoot::Center, &Vec::new(), 3), None);
    assert_eq!(area.prepare_split_resize(DockRoot::Center, &Vec::new(), 1), Some((false, 0, Some(150.0f32.to_bits()))));
    assert_eq!(area.prepare_split_resize(DockRoot::Center, &Vec::new(), 2), Some((false, 2, None)), "the last handle sizes the last child");
    let DockItem::Split { sizes, .. } = &area.center else { panic!("still a split") };
    assert_eq!(sizes, &vec![Some(150.0f32.to_bits()), None, None]);
    area.events.clear();
    assert!(area.apply_split_resize(DockRoot::Center, &Vec::new(), 2, 200.0f32.to_bits()));
    assert_eq!(area.events.len(), 1);
    assert!(!area.apply_split_resize(DockRoot::Center, &Vec::new(), 5, 200.0f32.to_bits()));
    let DockItem::Split { sizes, .. } = &area.center else { panic!("still a split") };
    assert_eq!(sizes[2], Some(200.0f32.to_bits()));
}

#[test]
fn side_resizes_need_the_side_and_an_editable_layout() {
    let mut area = DockArea::new("dock".to_string(), None);
    area.add_panel(panel(1, "log"), DockPlacement::Left, None);
    area.events.clear();
    assert!(!area.apply_side_resize(DockRoot::Right, 300.0f32.to_bits()));
    assert!(!area.apply_side_resize(DockRoot::Center, 300.0f32.to_bits()));
    assert!(area.apply_side_resize(DockRoot::Left, 300.0f32.to_bits()));
    assert_eq!(area.left.as_ref().map(|s| s.size), Some(300.0f32.to_bits()));
    area.set_layout_editable(false);
    assert!(!area.apply_side_resize(DockRoot::Left, 310.0f32.to_bits()));
    assert_eq!(area.events.len(), 1);
}
