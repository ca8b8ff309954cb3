use moon_ui_components::index_path::IndexPath;

#[test]
fn index_path_builders_replace_one_coordinate() {
    let p = IndexPath::new(4).section(2).column(7);
    assert_eq!(p, IndexPath { section: 2, row: 4, column: 7 });
    assert_eq!(p.row(9).row, 9);
    assert_eq!(IndexPath::default(), IndexPath::new(0));
}

#[test]
fn eq_row_ignores_the_column() {
    let a = IndexPath::new(3).section(1).column(0);
    assert!(a.eq_row(a.column(5)));
    assert!(!a.eq_row(a.row(4)));
    assert!(!a.eq_row(a.section(0)));
}

#[test]
fn index_path_display_and_element_id_text() {
    let p = IndexPath::new(120).section(3).column(45);
    assert_eq!(p.to_display_string(), "IndexPath(section: 3, row: 120, column: 45)");
    assert_eq!(p.element_id_text(), "moon-index-path(3,120,45)");
    assert_eq!(IndexPath::default().to_display_string(), "IndexPath(section: 0, row: 0, column: 0)");
    let big = IndexPath::new(usize::MAX);
    assert_eq!(big.element_id_text(), format!("moon-index-path(0,{},0)", usize::MAX));
}
