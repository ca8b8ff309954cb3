use moon_ui_components::dock::area::{DockArea, DockEvent, DockPlacement, DockRoot, DockPanelSlot};
use moon_ui_components::dock::drag::tab_interaction_policy;
use moon_ui_components::dock::edit::DockSplitPlacement;
use moon_ui_components::dock::item::{DockItem, DockPanel, TileMeta};
use moon_ui_components::dock::lifecycle::PanelCall;
use moon_ui_components::dock::named::DockNamedLayout;
use moon_ui_components::dock::resolve::NamedPanelResolver;
use moon_ui_components::dock::topology::{unique_names, DockTopologyByName, DockTopologyNode, DockTopologySide};

fn panel(id: u64, name: &str) -> DockPanel {
    DockPanel::new(id, name.to_string())
}

fn default_tile_meta(ix: usize) -> TileMeta {
    TileMeta {
        x: (12.0 + ix as f32 * 18.0).to_bits(),
        y: (12.0 + ix as f32 * 18.0).to_bits(),
        w: 320.0f32.to_bits(),
        h: 200.0f32.to_bits(),
        z_index: ix,
    }
}

fn tabs(ids: &[(u64, &str)], active_ix: usize) -> DockItem {
    DockItem::Tabs { items: ids.iter().map(|(i, n)| panel(*i, n)).collect(), active_ix }
}

fn is_layout_changed(e: &DockEvent) -> bool {
    matches!(e, DockEvent::LayoutChanged)
}

#[test]
fn dock_item_add_panel_creates_tabs_and_activates_new_panel() {
    let first = panel(1, "first");
    let second = panel(2, "second");
    let item = DockItem::Panel(first.clone()).with_panel_added(second.clone());
    let DockItem::Tabs { items, active_ix } = item else {
        panic!("expected adding a panel to a panel to create a tab set");
    };
    assert_eq!(active_ix, 1);
    assert_eq!(items.len(), 2);
    assert_eq!(items[0].id, first.id);
    assert_eq!(items[1].id, second.id);
}

#[test]
fn pinned_leading_tab_is_fixed_but_remains_a_drop_target() {
    let policy = tab_interaction_policy(true, true, true);
    assert!(!policy.draggable, "the pinned Charts tab must stay fixed");
    assert!(policy.accepts_drop, "the pinned Charts host must accept tabs inserted after the pinned prefix");
    assert!(!policy.detachable, "the pinned Charts tab must stay attached");
    let locked = tab_interaction_policy(false, false, true);
    assert!(!locked.draggable && !locked.accepts_drop && !locked.detachable);
}

#[test]
fn removal_collapses_emptied_containers_and_reports_every_occurrence() {
    let mut area = DockArea::new("dock".to_string(), None);
    area.set_center(DockItem::Split {
        horizontal: true,
        items: vec![tabs(&[(1, "chart"), (2, "orders")], 1), DockItem::Panel(panel(3, "chart"))],
        sizes: vec![Some(200.0f32.to_bits()), None],
    });
    area.add_panel(panel(4, "chart"), DockPlacement::Left, None);
    area.toggle_zoom_panel("chart".to_string());
    let before = area.events.len();
    let removed = area.remove_panel_by_name("chart");
    assert_eq!(removed.iter().map(|p| p.id).collect::<Vec<_>>(), vec![1, 3, 4]);
    match &area.center {
        DockItem::Panel(p) => assert_eq!(p.name, "orders"),
        _ => panic!("the split must collapse to its surviving panel"),
    }
    assert!(area.left.is_none(), "an emptied side dock disappears");
    assert!(area.zoomed_panel.is_none());
    assert_eq!(area.events.len(), before + 1);
    assert!(is_layout_changed(area.events.last().unwrap()));
    let again = area.remove_panel_by_name("chart");
    assert!(again.is_empty());
    assert_eq!(area.events.len(), before + 1);
}

#[test]
fn take_panel_returns_the_canonical_identity_once() {
    let mut area = DockArea::new("dock".to_string(), None);
    area.set_center(DockItem::Split {
        horizontal: false,
        items: vec![tabs(&[(1, "chart"), (2, "orders")], 0), tabs(&[(1, "chart"), (5, "news")], 0)],
        sizes: vec![],
    });
    area.add_panel(panel(7, "chart"), DockPlacement::Bottom, None);
    area.panel_calls.clear();
    let (canonical, unique) = area.take_panel_by_name("chart", default_tile_meta).expect("chart is present");
    assert_eq!(canonical.id, 1);
    assert_eq!(unique.iter().map(|p| p.id).collect::<Vec<_>>(), vec![1, 7]);
    assert!(area.find_panel_named("chart").is_none());
    let calls: Vec<String> = area.panel_calls.iter().map(call_text).collect();
    assert_eq!(calls, vec!["inactive 1", "removed 1", "inactive 7", "removed 7"]);
    assert!(area.take_panel_by_name("chart", default_tile_meta).is_none());
    assert_eq!(area.panel_calls.len(), 4);
}

fn call_text(c: &PanelCall) -> String {
    match c {
        PanelCall::SetZoomed { panel, zoomed } => format!("zoomed {} {}", panel.id, zoomed),
        PanelCall::SetActive { panel, active } => {
            if *active { format!("active {}", panel.id) } else { format!("inactive {}", panel.id) }
        }
        PanelCall::Removed { panel } => format!("removed {}", panel.id),
        PanelCall::AddedTo { panel } => format!("added {}", panel.id),
    }
}

#[test]
fn taking_the_zoomed_panel_unzooms_it_before_its_removal() {
    let mut area = DockArea::new("dock".to_string(), None);
    area.set_center(tabs(&[(1, "chart"), (2, "orders")], 0));
    area.toggle_zoom_panel("chart".to_string());
    area.panel_calls.clear();
    area.take_panel_by_name("chart", default_tile_meta).expect("chart is present");
    let calls: Vec<String> = area.panel_calls.iter().map(call_text).collect();
    assert_eq!(calls, vec!["zoomed 1 false", "inactive 1", "removed 1"]);
    assert!(area.zoomed_panel.is_none());
}

#[test]
fn layout_replacement_clears_zoom_before_removing_the_panel() {
    let mut area = DockArea::new("zoom-removal-dock".to_string(), None);
    area.set_center(DockItem::Panel(panel(1, "chart")));
    area.toggle_zoom_panel("chart".to_string());
    let layout = DockNamedLayout {
        topology: DockTopologyByName::tab_preset(vec!["report".to_string()]),
        active_tabs: Vec::new(),
        zoomed_panel: None,
    };
    let setup: Vec<String> = area.panel_calls.iter().map(call_text).collect();
    assert_eq!(setup, vec!["added 1", "zoomed 1 true"]);
    area.panel_calls.clear();
    let before = area.events.len();
    assert!(area.apply_named_layout(&layout, vec![panel(2, "report")], default_tile_meta));
    let calls: Vec<String> = area.panel_calls.iter().map(call_text).collect();
    assert_eq!(calls, vec!["zoomed 1 false", "inactive 1", "removed 1", "added 2"]);
    assert_eq!(area.events.len(), before + 1);
    assert!(area.zoomed_panel.is_none());
}

#[test]
fn activation_opens_the_side_selects_the_tab_and_announces_it() {
    let mut area = DockArea::new("dock".to_string(), None);
    area.add_panel(panel(1, "files"), DockPlacement::Left, None);
    area.add_panel(panel(2, "search"), DockPlacement::Left, None);
    area.set_dock_open(DockPlacement::Left, false);
    area.toggle_zoom_panel("editor".to_string());
    area.events.clear();
    assert!(area.activate_panel_by_name("files"));
    assert!(area.zoomed_panel.is_none());
    assert!(area.left.as_ref().unwrap().open);
    match &area.left.as_ref().unwrap().item {
        DockItem::Tabs { active_ix, .. } => assert_eq!(*active_ix, 0),
        _ => panic!("expected tabs"),
    }
    assert_eq!(area.events.len(), 2);
    assert!(matches!(&area.events[0], DockEvent::PanelActivated { panel_name } if panel_name == "files"));
    assert!(is_layout_changed(&area.events[1]));
    area.events.clear();
    assert!(area.activate_panel_by_name("files"));
    assert_eq!(area.events.len(), 1, "an already visible panel only announces its activation");
    assert!(!area.activate_panel_by_name("missing"));
    let loc = area.panel_location("search").unwrap();
    assert_eq!(loc.root, DockRoot::Left);
    assert_eq!(loc.slot, DockPanelSlot::Tab(1));
}

#[test]
fn pinned_panels_lead_and_block_user_reordering() {
    let mut area = DockArea::new("dock".to_string(), None);
    area.set_center(tabs(&[(1, "orders"), (2, "chart"), (3, "news")], 0));
    assert!(area.set_pinned_leading_panels(vec!["chart".to_string(), "".to_string(), "chart".to_string()]));
    assert_eq!(area.pinned_leading_panels, vec!["chart".to_string()]);
    match &area.center {
        DockItem::Tabs { items, active_ix } => {
            assert_eq!(items.iter().map(|p| p.name.as_str()).collect::<Vec<_>>(), vec!["chart", "orders", "news"]);
            assert_eq!(items[*active_ix].name, "orders", "the active tab keeps its identity");
        },
        _ => panic!("expected tabs"),
    }
    assert!(!area.set_pinned_leading_panels(vec!["chart".to_string()]));
    assert!(!area.move_tab_before_from_user(DockRoot::Center, &vec![], "chart", 3));
    assert!(area.move_tab_before_from_user(DockRoot::Center, &vec![], "news", 0));
    match &area.center {
        DockItem::Tabs { items, active_ix } => {
            assert_eq!(items.iter().map(|p| p.name.as_str()).collect::<Vec<_>>(), vec!["chart", "news", "orders"]);
            assert_eq!(*active_ix, 1);
        },
        _ => panic!("expected tabs"),
    }
    area.set_layout_editable(false);
    assert!(!area.move_tab_before_from_user(DockRoot::Center, &vec![], "news", 2));
}

#[test]
fn moving_a_panel_into_tabs_finds_the_target_after_the_take() {
    let mut area = DockArea::new("dock".to_string(), None);
    area.set_center(DockItem::Split {
        horizontal: true,
        items: vec![DockItem::Panel(panel(1, "a")), tabs(&[(2, "b"), (3, "c")], 0)],
        sizes: vec![],
    });
    assert!(area.move_panel_to_tabs_from_user("a", DockRoot::Center, &vec![1], 1, default_tile_meta));
    match &area.center {
        DockItem::Tabs { items, active_ix } => {
            assert_eq!(items.iter().map(|p| p.name.as_str()).collect::<Vec<_>>(), vec!["b", "a", "c"]);
            assert_eq!(*active_ix, 1);
        },
        _ => panic!("the emptied slot collapses and the target is found again"),
    }
    assert!(!area.move_panel_to_tabs("a", DockRoot::Center, &vec![5], 0, default_tile_meta));
}

#[test]
fn moving_a_panel_to_a_split_wraps_the_target() {
    let mut area = DockArea::new("dock".to_string(), None);
    area.set_center(tabs(&[(1, "a"), (2, "b")], 0));
    assert!(area.move_panel_to_split_from_user("a", DockRoot::Center, &vec![], DockSplitPlacement::Left, default_tile_meta));
    match &area.center {
        DockItem::Split { horizontal, items, .. } => {
            assert!(*horizontal);
            assert!(matches!(&items[0], DockItem::Panel(p) if p.name == "a"));
            assert!(matches!(&items[1], DockItem::Panel(p) if p.name == "b"));
        },
        _ => panic!("expected a split"),
    }
    area.set_center(DockItem::Panel(panel(3, "solo")));
    assert!(!area.move_panel_to_split("solo", DockRoot::Center, &vec![], DockSplitPlacement::Right, default_tile_meta), "a drop on itself does nothing");
}

#[test]
fn a_returning_panel_rejoins_its_split_or_wraps_its_slot() {
    let mut area = DockArea::new("dock".to_string(), None);
    area.set_center(DockItem::Split {
        horizontal: true,
        items: vec![DockItem::Panel(panel(1, "a")), DockItem::Panel(panel(2, "b")), DockItem::Panel(panel(3, "c"))],
        sizes: vec![Some(1)],
    });
    assert!(area.insert_panel_beside_sibling(panel(4, "d"), &vec!["b".to_string()], &vec![], 1, DockSplitPlacement::Right, Some(7), None));
    match &area.center {
        DockItem::Split { items, sizes, .. } => {
            assert_eq!(items.len(), 4);
            assert!(matches!(&items[1], DockItem::Panel(p) if p.name == "d"));
            assert_eq!(sizes, &vec![Some(1), Some(7), None, None]);
        },
        _ => panic!("expected a split"),
    }
    let mut area = DockArea::new("dock".to_string(), None);
    area.set_center(tabs(&[(1, "a"), (2, "b")], 0));
    assert!(area.insert_panel_beside_sibling(panel(4, "d"), &vec!["zzz".to_string()], &vec!["a".to_string(), "b".to_string()], 0, DockSplitPlacement::Top, Some(5), Some(6)));
    match &area.center {
        DockItem::Split { horizontal, items, sizes } => {
            assert!(!*horizontal);
            assert!(matches!(&items[0], DockItem::Panel(p) if p.name == "d"));
            assert_eq!(sizes, &vec![Some(5), Some(6)]);
        },
        _ => panic!("expected a split"),
    }
    assert!(!area.insert_panel_beside_sibling(panel(9, "e"), &vec![], &vec!["nowhere".to_string()], 0, DockSplitPlacement::Left, None, None));
}

#[test]
fn topology_serialization_is_normalized_and_runtime_state_free() {
    let noisy = DockTopologyByName {
        center: DockTopologyNode::Tabs { names: vec!["chart".into(), "chart".into(), "report".into()] },
        left: Some(DockTopologySide { item: DockTopologyNode::Empty, size: f32::NAN.to_bits(), open: true }),
        right: None,
        bottom: None,
    };
    let expected = DockTopologyByName::tab_preset(vec!["chart".to_string(), "report".to_string()]);
    assert!(noisy.same_as(&expected, default_tile_meta));
    assert_eq!(noisy.panel_names(default_tile_meta), vec!["chart", "report"]);
    let other = DockTopologyByName::tab_preset(vec!["report".to_string(), "chart".to_string()]);
    assert!(!noisy.same_as(&other, default_tile_meta));
}

#[test]
fn topology_geometry_compares_negative_zero_equal_to_zero() {
    let tiles = |x: u32| DockTopologyByName {
        center: DockTopologyNode::Tiles {
            names: vec!["a".into(), "b".into()],
            metas: vec![TileMeta { x, y: 0, w: 100.0f32.to_bits(), h: 100.0f32.to_bits(), z_index: 0 }],
        },
        left: None,
        right: None,
        bottom: None,
    };
    assert!(tiles(0x8000_0000).same_as(&tiles(0), default_tile_meta));
    assert!(!tiles(1.0f32.to_bits()).same_as(&tiles(0), default_tile_meta));
}

#[test]
fn resolving_a_topology_reuses_pool_identities_once() {
    let mut resolver = NamedPanelResolver::new(vec![panel(1, "chart"), panel(2, "chart"), panel(3, "news")], vec![panel(4, "orders")]);
    let node = DockTopologyNode::Tabs { names: vec!["chart".into(), "ghost".into(), "chart".into(), "orders".into()] };
    let item = resolver.resolve_node(&node, default_tile_meta);
    match item {
        DockItem::Tabs { items, .. } => assert_eq!(items.iter().map(|p| p.id).collect::<Vec<_>>(), vec![1, 4]),
        _ => panic!("expected tabs"),
    }
    assert_eq!(resolver.remaining().iter().map(|p| p.id).collect::<Vec<_>>(), vec![3]);
}

#[test]
fn side_docks_open_toggle_and_keep_their_size() {
    let mut area = DockArea::new("dock".to_string(), Some(2));
    area.add_panel(panel(1, "terminal"), DockPlacement::Bottom, Some(300.0f32.to_bits()));
    let side = area.bottom.as_ref().unwrap();
    assert_eq!(side.size, 300.0f32.to_bits());
    assert!(side.open);
    assert!(area.toggle_dock(DockPlacement::Bottom));
    assert!(!area.bottom.as_ref().unwrap().open);
    assert!(!area.set_dock_open(DockPlacement::Bottom, false));
    assert!(!area.toggle_dock(DockPlacement::Center));
    assert!(!area.toggle_dock(DockPlacement::Right));
    area.add_panel(panel(2, "outline"), DockPlacement::Right, None);
    assert_eq!(area.right.as_ref().unwrap().size, 280.0f32.to_bits());
    assert!(matches!(&area.right.as_ref().unwrap().item, DockItem::Panel(p) if p.name == "outline"));
}

#[test]
fn named_tab_preset_orders_known_panels_and_appends_unknown_once() {
    let mut area = DockArea::new("dock".to_string(), None);
    area.set_center(DockItem::Split {
        horizontal: false,
        items: vec![DockItem::Panel(panel(1, "chart")), tabs(&[(2, "future"), (3, "report"), (1, "chart")], 0)],
        sizes: vec![None, Some(180.0f32.to_bits())],
    });
    let topology = DockTopologyByName {
        center: DockTopologyNode::Tabs { names: vec!["report".into(), "missing".into(), "report".into(), "chart".into()] },
        left: None,
        right: None,
        bottom: None,
    };
    assert!(area.apply_topology_by_name(&topology, vec![panel(4, "detached")], default_tile_meta));
    let DockItem::Tabs { items, active_ix } = &area.center else {
        panic!("repaired panels should become one tab group");
    };
    assert_eq!(items.iter().map(|p| p.name.as_str()).collect::<Vec<_>>(), vec!["report", "chart", "future", "detached"]);
    assert_eq!(items.iter().map(|p| p.id).collect::<Vec<_>>(), vec![3, 1, 2, 4]);
    assert_eq!(*active_ix, 2, "the previously active future panel must remain active");
}

#[test]
fn topology_repair_removes_a_second_identity_with_the_same_stable_name() {
    let mut area = DockArea::new("dock".to_string(), None);
    area.set_center(tabs(&[(1, "report"), (2, "report")], 0));
    let before = area.unique_panels();
    assert!(area.has_duplicate_panel_occurrences());
    assert!(area.apply_topology_by_name(&DockTopologyByName::tab_preset(vec!["report".to_string()]), Vec::new(), default_tile_meta));
    let DockItem::Panel(remaining) = &area.center else {
        panic!("one stable report identity must remain after repair");
    };
    assert_eq!(remaining.id, 1);
    let after = area.unique_panels();
    assert_eq!(before.len() - after.len(), 1, "the second identity is dropped");
}

#[test]
fn equal_topology_does_not_mutate_or_emit_layout_event() {
    let mut area = DockArea::new("dock".to_string(), None);
    area.set_center(tabs(&[(1, "chart"), (2, "report")], 1));
    let topology = area.topology_by_name(default_tile_meta);
    area.events.clear();
    assert!(!area.apply_topology_by_name(&topology, Vec::new(), default_tile_meta));
    assert!(area.events.is_empty());
    match &area.center {
        DockItem::Tabs { active_ix, .. } => assert_eq!(*active_ix, 1),
        _ => panic!("expected the tab group to be untouched"),
    }
    assert_eq!(area.active_panel_names(), vec!["report".to_string()]);
}

#[test]
fn normalizing_a_normalized_topology_changes_nothing() {
    let noisy = DockTopologyByName {
        center: DockTopologyNode::Split {
            horizontal: true,
            items: vec![
                DockTopologyNode::Tiles { names: vec!["a".into(), "".into(), "b".into()], metas: vec![TileMeta { x: f32::NAN.to_bits(), y: 0, w: 0, h: 0, z_index: 1 }] },
                DockTopologyNode::Panel { name: "a".into() },
                DockTopologyNode::Split { horizontal: false, items: vec![DockTopologyNode::Panel { name: "c".into() }], sizes: vec![Some((-3.0f32).to_bits())] },
                DockTopologyNode::Tabs { names: vec!["d".into(), "e".into()] },
            ],
            sizes: vec![Some(120.0f32.to_bits()), None, Some(0)],
        },
        left: Some(DockTopologySide { item: DockTopologyNode::Panel { name: "f".into() }, size: (-1.0f32).to_bits(), open: false }),
        right: Some(DockTopologySide { item: DockTopologyNode::Panel { name: "a".into() }, size: 90.0f32.to_bits(), open: true }),
        bottom: None,
    };
    let once = noisy.normalized(default_tile_meta);
    let twice = once.normalized(default_tile_meta);
    assert_eq!(format!("{:?}", once), format!("{:?}", twice));
    assert!(once.right.is_none(), "a side whose only panel is already named elsewhere disappears");
    assert_eq!(once.left.as_ref().map(|s| s.size), Some(0), "a non-positive side size becomes zero");
    assert!(noisy.same_as(&once, default_tile_meta), "a topology compares equal to its normal form");
}

#[test]
fn resolving_a_normalized_topology_reproduces_it() {
    let mut area = DockArea::new("dock".to_string(), None);
    area.set_center(DockItem::Split {
        horizontal: true,
        items: vec![tabs(&[(1, "chart"), (2, "orders")], 0), DockItem::Panel(panel(3, "report"))],
        sizes: vec![None, Some(300.0f32.to_bits())],
    });
    let topology = area.topology_by_name(default_tile_meta);
    let pool = vec![panel(7, "report"), panel(8, "orders"), panel(9, "chart")];
    let (center, left, right, bottom) = DockArea::new("other".to_string(), None).resolve_named_topology(&topology, pool, false, default_tile_meta);
    assert!(left.is_none() && right.is_none() && bottom.is_none());
    assert_eq!(format!("{:?}", center.topology_by_name()), format!("{:?}", topology.center));
    let DockItem::Split { items, .. } = &center else { panic!("the split is reproduced") };
    assert!(matches!(&items[1], DockItem::Panel(p) if p.id == 7));
}

#[test]
fn applying_a_docks_own_topology_back_changes_nothing() {
    let mut area = DockArea::new("dock".to_string(), None);
    area.set_center(DockItem::Split {
        horizontal: true,
        items: vec![
            tabs(&[(1, "chart"), (2, "orders")], 1),
            DockItem::Tiles { items: vec![panel(3, "a"), panel(4, "b")], metas: vec![default_tile_meta(0), default_tile_meta(1)] },
            DockItem::Split { horizontal: false, items: vec![DockItem::Panel(panel(5, "report")), DockItem::Panel(panel(6, "log"))], sizes: vec![Some(90.0f32.to_bits())] },
        ],
        sizes: vec![None, Some(300.0f32.to_bits()), None],
    });
    area.add_panel(panel(7, "tools"), DockPlacement::Left, Some(250.0f32.to_bits()));
    area.add_panel(panel(8, "console"), DockPlacement::Bottom, Some(180.0f32.to_bits()));
    let topology = area.topology_by_name(default_tile_meta);
    area.events.clear();
    let before = format!("{:?}", area);
    assert!(!area.apply_topology_by_name(&topology, Vec::new(), default_tile_meta));
    assert!(area.events.is_empty());
    assert_eq!(format!("{:?}", area), before);
}

#[test]
fn a_pinned_dock_applying_its_own_topology_changes_nothing() {
    let mut area = DockArea::new("pinned".to_string(), None);
    area.set_center(DockItem::Split {
        horizontal: true,
        items: vec![
            DockItem::Tabs { items: vec![panel(2, "report"), panel(1, "chart")], active_ix: 0 },
            DockItem::Panel(panel(3, "orders")),
        ],
        sizes: vec![None, None],
    });
    assert!(area.set_pinned_leading_panels(vec!["chart".to_string()]));
    area.events.clear();
    let topology = area.topology_by_name(default_tile_meta);
    assert_eq!(topology.panel_names(default_tile_meta), vec!["chart", "report", "orders"]);
    assert!(!area.apply_topology_by_name(&topology, Vec::new(), default_tile_meta));
    assert!(area.events.is_empty());
}

#[test]
fn a_pinned_dock_with_a_lone_tab_applying_its_own_topology_changes_nothing() {
    let mut area = DockArea::new("pinned".to_string(), None);
    area.set_center(DockItem::Split {
        horizontal: true,
        items: vec![
            DockItem::Tabs { items: vec![panel(1, "chart")], active_ix: 0 },
            DockItem::Split {
                horizontal: false,
                items: vec![DockItem::Panel(panel(2, "report"))],
                sizes: Vec::new(),
            },
        ],
        sizes: Vec::new(),
    });
    area.set_pinned_leading_panels(vec!["chart".to_string()]);
    area.events.clear();
    let topology = area.topology_by_name(default_tile_meta);
    assert!(!area.apply_topology_by_name(&topology, Vec::new(), default_tile_meta));
    assert!(area.events.is_empty());
}

#[test]
fn a_lone_sibling_panel_is_no_home_strip() {
    let mut area = DockArea::new("dock".to_string(), None);
    area.set_center(DockItem::Panel(panel(1, "chart")));
    let before = area.events.len();
    let names = vec!["chart".to_string()];
    assert!(!area.insert_panel_into_home_tabs(&panel(2, "orders"), 0, &names));
    match &area.center {
        DockItem::Panel(p) => assert_eq!(p.id, 1),
        _ => panic!("the center must stay a lone panel"),
    }
    assert_eq!(area.events.len(), before);
}

#[test]
fn a_returning_panel_rejoins_the_strip_that_holds_its_sibling() {
    let mut area = DockArea::new("dock".to_string(), None);
    area.set_center(DockItem::Split {
        horizontal: true,
        items: vec![DockItem::Panel(panel(1, "chart")), tabs(&[(3, "news"), (4, "chart")], 0)],
        sizes: vec![],
    });
    let before = area.events.len();
    let names = vec!["chart".to_string()];
    assert!(area.insert_panel_into_home_tabs(&panel(2, "orders"), 9, &names));
    let DockItem::Split { items, .. } = &area.center else { panic!("the split must stay") };
    assert!(matches!(&items[0], DockItem::Panel(p) if p.id == 1));
    let DockItem::Tabs { items: strip, active_ix } = &items[1] else { panic!("the strip must stay") };
    assert_eq!(strip.iter().map(|p| p.id).collect::<Vec<_>>(), vec![3, 4, 2]);
    assert_eq!(*active_ix, 2);
    assert_eq!(area.events.len(), before + 1);
}

#[test]
fn a_strip_keeps_each_new_non_empty_name_once_in_order() {
    let names: Vec<String> = ["a", "", "b", "a", "c", "b"].iter().map(|s| s.to_string()).collect();
    let mut seen = vec!["c".to_string()];
    let kept = unique_names(&names, &mut seen);
    assert_eq!(kept, vec!["a".to_string(), "b".to_string()]);
    assert_eq!(seen, vec!["c".to_string(), "a".to_string(), "b".to_string()]);
}

#[test]
fn a_side_dock_below_its_smallest_width_is_widened_when_its_topology_is_applied_back() {
    let mut area = DockArea::new("narrow".to_string(), None);
    area.set_center(DockItem::Panel(panel(1, "chart")));
    area.add_panel(panel(2, "tools"), DockPlacement::Left, Some(50.0f32.to_bits()));
    area.events.clear();
    area.panel_calls.clear();
    let topology = area.topology_by_name(default_tile_meta);
    assert!(area.apply_topology_by_name(&topology, Vec::new(), default_tile_meta));
    assert_eq!(area.left.as_ref().expect("left dock stays").size, 112.0f32.to_bits());
    assert_eq!(area.events.len(), 1);
    assert!(area.panel_calls.is_empty(), "no panel leaves or joins");
}

#[test]
fn adding_removing_and_zooming_panels_records_their_lifecycle_calls() {
    let mut area = DockArea::new("dock".to_string(), None);
    area.set_center(tabs(&[(1, "chart"), (2, "orders")], 0));
    area.add_panel(panel(3, "news"), DockPlacement::Right, None);
    area.toggle_zoom_panel("chart".to_string());
    area.toggle_zoom_panel("news".to_string());
    area.clear_zoom();
    area.clear_zoom();
    let removed = area.remove_panel_by_name("orders");
    assert_eq!(removed.len(), 1);
    let calls: Vec<String> = area.panel_calls.iter().map(call_text).collect();
    assert_eq!(
        calls,
        vec![
            "added 1", "added 2", "added 3", "zoomed 1 true", "zoomed 1 false", "zoomed 3 true", "zoomed 3 false",
            "removed 2",
        ]
    );
    area.panel_calls.clear();
    area.toggle_zoom_panel("news".to_string());
    assert!(area.activate_panel_by_name("chart"));
    let calls: Vec<String> = area.panel_calls.iter().map(call_text).collect();
    assert_eq!(calls, vec!["zoomed 3 true", "zoomed 3 false"]);
}
