use grandstrat::editor::{
    apply_editor_action, apply_shortcut, create_faction, drag_paints, faction_key, faction_list,
    paint_province, search_provinces, select_brush, unassign_province, Shortcut, UiState,
};
use grandstrat::palette::{fill_palette, province_color, PALETTE_LEN};
use grandstrat::parser::{build_provinces, parse_hex_color, RawPath};
use grandstrat::types::{EditorTool, MapGroup, MapMode};

fn group(key: &str, label: &str, color: [u8; 3], n: usize) -> MapGroup {
    MapGroup {
        key: key.to_string(),
        label: label.to_string(),
        paths: (0..n).map(|i| format!("p{}", i)).collect(),
        color,
        capital_province_id: None,
        capital_name: None,
    }
}

fn provinces(ids: &[&str]) -> Vec<grandstrat::types::Province> {
    let raws: Vec<RawPath> = ids.iter().map(|s| RawPath { id: s.to_string(), d: String::new() }).collect();
    build_provinces(&raws).0
}

#[test]
fn default_ui_state() {
    let s = UiState::default();
    assert!(!s.show_search);
    assert!(!s.show_editor);
    assert_eq!(s.active_tool, EditorTool::Brush);
    assert_eq!(s.active_group_key, "#810f7c");
    assert_eq!(s.new_faction_label, "New Faction");
    assert_eq!(s.new_faction_color, [180, 50, 80]);
}

#[test]
fn brush_eraser_eyedropper() {
    let mut ps = provinces(&["a", "b"]);
    let mut groups = vec![group("#810f7c", "Ottomans", [129, 15, 124], 0)];
    let mut ui = UiState::default();
    assert!(apply_editor_action(&mut ui, &mut ps, &mut groups, 0));
    assert_eq!(ps[0].group_key, "#810f7c");
    assert_eq!(ps[0].group_label, "Ottomans");
    assert_eq!(ps[0].color, [129, 15, 124]);
    assert_eq!(groups[0].paths, vec!["a".to_string()]);
    ui.active_group_key = "#missing".to_string();
    assert!(!apply_editor_action(&mut ui, &mut ps, &mut groups, 1));
    assert_eq!(ps[1].group_key, "");
    assert_eq!(groups[0].paths, vec!["a".to_string()]);
    ui.active_tool = EditorTool::Eyedropper;
    assert!(!apply_editor_action(&mut ui, &mut ps, &mut groups, 1));
    assert_eq!(ui.active_group_key, "#missing");
    assert_eq!(ui.active_tool, EditorTool::Eyedropper);
    assert!(!apply_editor_action(&mut ui, &mut ps, &mut groups, 0));
    assert_eq!(ui.active_group_key, "#810f7c");
    assert_eq!(ui.active_tool, EditorTool::Brush);
    ui.active_tool = EditorTool::Eraser;
    assert!(apply_editor_action(&mut ui, &mut ps, &mut groups, 0));
    assert_eq!(ps[0].group_key, "");
    assert_eq!(ps[0].group_label, "Unassigned");
    assert_eq!(ps[0].color, [209, 219, 221]);
    assert!(groups[0].paths.is_empty());
}

#[test]
fn painting_moves_the_path_between_factions() {
    let mut ps = provinces(&["p0", "p1", "x"]);
    let mut groups = vec![group("#aaaaaa", "A", [170, 170, 170], 2), group("#bbbbbb", "B", [187, 187, 187], 1)];
    assert!(paint_province(&mut ps, &mut groups, 1, &"#bbbbbb".to_string()));
    assert_eq!(groups[0].paths, vec!["p0".to_string()]);
    assert_eq!(groups[1].paths, vec!["p0".to_string(), "p1".to_string()]);
    assert!(paint_province(&mut ps, &mut groups, 0, &"#bbbbbb".to_string()));
    assert!(groups[0].paths.is_empty());
    assert_eq!(groups[1].paths, vec!["p0".to_string(), "p1".to_string()]);
    assert!(paint_province(&mut ps, &mut groups, 2, &"#aaaaaa".to_string()));
    assert_eq!(groups[0].paths, vec!["x".to_string()]);
    assert_eq!(groups[1].label, "B");
    assert_eq!(groups[1].color, [187, 187, 187]);
}

#[test]
fn paint_and_unassign_selected() {
    let mut ps = provinces(&["a"]);
    let mut groups = vec![group("#02818a", "France", [2, 129, 138], 0)];
    assert!(paint_province(&mut ps, &mut groups, 0, &"#02818a".to_string()));
    assert_eq!(ps[0].group_label, "France");
    assert_eq!(groups[0].paths, vec!["a".to_string()]);
    unassign_province(&mut ps, &mut groups, 0);
    assert_eq!(ps[0].group_label, "Unassigned");
    assert!(groups[0].paths.is_empty());
}

#[test]
fn faction_keys_and_creation() {
    assert_eq!(faction_key([10, 20, 255]), "#0a14ff");
    assert_eq!(faction_key([0, 0, 0]), "#000000");
    assert_eq!(parse_hex_color(&faction_key([180, 50, 80])), [180, 50, 80]);
    let mut ui = UiState::default();
    ui.new_faction_label = "  Venice \t".to_string();
    ui.new_faction_color = [10, 20, 255];
    let mut groups = vec![group("#0a14ff", "Old", [1, 1, 1], 3), group("#ffffff", "White", [255, 255, 255], 0)];
    assert!(create_faction(&mut ui, &mut groups));
    assert_eq!(groups.len(), 2);
    assert_eq!(groups[0].label, "Venice");
    assert!(groups[0].paths.is_empty());
    assert_eq!(groups[0].color, [10, 20, 255]);
    assert_eq!(ui.active_group_key, "#0a14ff");
    ui.new_faction_color = [1, 2, 3];
    ui.active_tool = EditorTool::Eraser;
    assert!(create_faction(&mut ui, &mut groups));
    assert_eq!(groups.len(), 3);
    assert_eq!(groups[2].key, "#010203");
    assert_eq!(ui.active_tool, EditorTool::Brush);
    ui.new_faction_label = "   ".to_string();
    assert!(!create_faction(&mut ui, &mut groups));
    assert_eq!(groups.len(), 3);
}

#[test]
fn search_matches_name_id_and_label() {
    let mut ps = provinces(&["FR_paris", "lyon", "rome"]);
    ps[2].group_label = "Papal States".to_string();
    let found = search_provinces(&ps, "  PARIS ");
    assert_eq!(found, vec![0]);
    assert_eq!(search_provinces(&ps, "papal"), vec![2]);
    assert_eq!(search_provinces(&ps, "fr paris"), vec![0]);
    assert_eq!(search_provinces(&ps, ""), vec![0, 1, 2]);
    assert_eq!(search_provinces(&ps, "zzz"), Vec::<usize>::new());
}

#[test]
fn search_stops_at_forty() {
    let ids: Vec<String> = (0..50).map(|i| format!("p{}", i)).collect();
    let refs: Vec<&str> = ids.iter().map(|s| s.as_str()).collect();
    let ps = provinces(&refs);
    let found = search_provinces(&ps, "p");
    assert_eq!(found.len(), 40);
    assert_eq!(found[39], 39);
}

#[test]
fn faction_list_largest_first() {
    let groups = vec![
        group("#1", "Small", [0, 0, 0], 1),
        group("#2", "Big", [0, 0, 0], 5),
        group("#3", "Also small", [0, 0, 0], 1),
        group("#4", "Medium", [0, 0, 0], 3),
    ];
    assert_eq!(faction_list(&groups, ""), vec![1, 3, 0, 2]);
    assert_eq!(faction_list(&groups, " SMALL "), vec![0, 2]);
    assert_eq!(faction_list(&groups, "none"), Vec::<usize>::new());
}

#[test]
fn shortcuts_and_drag() {
    let mut ui = UiState::default();
    apply_shortcut(&mut ui, Shortcut::ToggleSearch);
    assert!(ui.show_search);
    apply_shortcut(&mut ui, Shortcut::Eraser);
    assert_eq!(ui.active_tool, EditorTool::Eraser);
    assert!(!drag_paints(&ui, true));
    ui.show_editor = true;
    assert!(drag_paints(&ui, true));
    assert!(!drag_paints(&ui, false));
    apply_shortcut(&mut ui, Shortcut::Eyedropper);
    assert!(!drag_paints(&ui, true));
    apply_shortcut(&mut ui, Shortcut::Brush);
    assert!(drag_paints(&ui, true));
}

#[test]
fn palette_by_map_mode() {
    let mut ps = provinces(&["a", "b", "c"]);
    ps[0].group_key = "#010203".to_string();
    ps[0].color = [1, 2, 3];
    ps[1].group_label = "Alpine WASTELAND".to_string();
    ps[2].index = 5;
    let mut buf = vec![7u8; 16];
    fill_palette(&mut buf, &ps, MapMode::Political, [1, 63, 63], [209, 219, 221]);
    assert_eq!(buf, vec![1, 63, 63, 255, 1, 2, 3, 255, 209, 219, 221, 255, 7, 7, 7, 7]);
    let mut buf = vec![0u8; PALETTE_LEN];
    fill_palette(&mut buf, &ps, MapMode::Wastelands, [1, 63, 63], [209, 219, 221]);
    assert_eq!(&buf[4..12], &[180, 190, 200, 255, 35, 35, 35, 255]);
    assert_eq!(&buf[24..28], &[180, 190, 200, 255]);
    assert_eq!(province_color(&ps[0], MapMode::Independent, [0, 0, 0]), [75, 90, 105]);
    assert_eq!(province_color(&ps[1], MapMode::Independent, [0, 0, 0]), [255, 140, 0]);
    assert_eq!(province_color(&ps[0], MapMode::Plain, [9, 9, 9]), [9, 9, 9]);
    assert_eq!(province_color(&ps[1], MapMode::Terrain, [9, 9, 9]), [9, 9, 9]);
}

#[test]
fn selecting_a_brush() {
    let mut ui = UiState::default();
    ui.active_tool = EditorTool::Eyedropper;
    ui.show_editor = true;
    select_brush(&mut ui, "#02818a");
    assert_eq!(ui.active_group_key, "#02818a");
    assert_eq!(ui.active_tool, EditorTool::Brush);
    assert!(ui.show_editor);
    assert_eq!(ui.new_faction_label, "New Faction");
}
