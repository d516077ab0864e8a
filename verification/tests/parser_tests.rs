use grandstrat::parser::{
    apply_config, build_provinces, export_config, extract_attr, parse_hex_color, parse_svg_paths,
    RawPath,
};
use grandstrat::path_data::tokenize_svg_commands;
use grandstrat::types::{BiomeType, ConfigGroup, MapConfig};

fn raw(id: &str, d: &str) -> RawPath {
    RawPath { id: id.to_string(), d: d.to_string() }
}

#[test]
fn hex_color_plain_keys() {
    assert_eq!(parse_hex_color("#ff8c00"), [255, 140, 0]);
    assert_eq!(parse_hex_color("#D1DBDD"), [209, 219, 221]);
    assert_eq!(parse_hex_color("#013f3f"), [1, 63, 63]);
}

#[test]
fn hex_color_accepts_plus_sign_like_from_str_radix() {
    assert_eq!(parse_hex_color("#+12345"), [0x01, 0x23, 0x45]);
}

#[test]
fn hex_color_pattern_keys_use_background() {
    assert_eq!(parse_hex_color("diagonal_3366cc_ffffff"), [0x33, 0x66, 0xcc]);
    assert_eq!(parse_hex_color("horizontal_00ff00"), [0, 255, 0]);
    assert_eq!(parse_hex_color("vertical_abc_def"), [209, 219, 221]);
    assert_eq!(parse_hex_color("vertical_zzzzzz_1"), [209, 219, 221]);
    assert_eq!(parse_hex_color("diagonal"), [209, 219, 221]);
}

#[test]
fn hex_color_defaults() {
    assert_eq!(parse_hex_color("#12345"), [209, 219, 221]);
    assert_eq!(parse_hex_color("#1234567"), [209, 219, 221]);
    assert_eq!(parse_hex_color("#12g456"), [209, 219, 221]);
    assert_eq!(parse_hex_color("red"), [209, 219, 221]);
    assert_eq!(parse_hex_color(""), [209, 219, 221]);
    assert_eq!(parse_hex_color("#é2345"), [209, 219, 221]);
}

#[test]
fn extract_attr_double_and_single_quotes() {
    let tag = "<path id=\"FR_paris\" d=\"M1 2L3 4Z\"/>";
    assert_eq!(extract_attr(tag, "id"), Some("FR_paris".to_string()));
    assert_eq!(extract_attr(tag, "d"), Some("M1 2L3 4Z".to_string()));
    let tag2 = "<path\nid='a b'\td='M0 0'>";
    assert_eq!(extract_attr(tag2, "id"), Some("a b".to_string()));
    assert_eq!(extract_attr(tag2, "d"), Some("M0 0".to_string()));
}

#[test]
fn extract_attr_missing_or_unclosed() {
    assert_eq!(extract_attr("<path d=\"M0 0\">", "id"), None);
    assert_eq!(extract_attr("<path id=\"abc>", "id"), None);
    assert_eq!(extract_attr("<path data-id=\"x\" id=\"y\">", "id"), Some("y".to_string()));
    assert_eq!(extract_attr("<path id=\"\" d=\"\">", "id"), Some(String::new()));
}

#[test]
fn svg_paths_in_document_order() {
    let svg = "<svg><path id=\"a\" d=\"M0 0\"/><path id=\"patternX\" d=\"M1 1\"/><path d=\"M2 2\"/><g><path id=\"b\" d=\"M3 3\"></g></svg>";
    let paths = parse_svg_paths(svg);
    assert_eq!(paths.len(), 2);
    assert_eq!(paths[0].id, "a");
    assert_eq!(paths[0].d, "M0 0");
    assert_eq!(paths[1].id, "b");
    assert_eq!(paths[1].d, "M3 3");
}

#[test]
fn svg_paths_unterminated_and_short() {
    assert_eq!(parse_svg_paths("<path id=\"a\" d=\"b\"").len(), 0);
    assert_eq!(parse_svg_paths("<path").len(), 0);
    assert_eq!(parse_svg_paths("").len(), 0);
    let p = parse_svg_paths("é<path id=\"ü\" d=\"M1 1\">");
    assert_eq!(p.len(), 1);
    assert_eq!(p[0].id, "ü");
}

#[test]
fn tokenizer_splits_commands_and_numbers() {
    let cmds = tokenize_svg_commands("M10,20 L-5.5.5e3 z");
    assert_eq!(cmds.len(), 3);
    assert_eq!(cmds[0].cmd, 'M');
    assert_eq!(cmds[0].params, vec!["10".to_string(), "20".to_string()]);
    assert_eq!(cmds[1].cmd, 'L');
    assert_eq!(cmds[1].params, vec!["-5.5".to_string(), ".5e3".to_string()]);
    assert_eq!(cmds[2].cmd, 'z');
    assert!(cmds[2].params.is_empty());
}

#[test]
fn tokenizer_keeps_leading_numbers_and_exponent_signs() {
    let cmds = tokenize_svg_commands("5 M1e-2+3");
    assert_eq!(cmds.len(), 1);
    assert_eq!(cmds[0].cmd, 'M');
    assert_eq!(cmds[0].params, vec!["5".to_string(), "1e-2".to_string(), "+3".to_string()]);
    assert_eq!(tokenize_svg_commands("1 2 3").len(), 0);
}

#[test]
fn build_provinces_fresh_and_indexed() {
    let raws = vec![raw("FR_paris", "M0 0"), raw("lyon", "M1 1"), raw("FR_paris", "M2 2")];
    let (provinces, index) = build_provinces(&raws);
    assert_eq!(provinces.len(), 3);
    assert_eq!(provinces[0].name, "FR paris");
    assert_eq!(provinces[1].index, 1);
    assert_eq!(provinces[1].group_label, "Unassigned");
    assert_eq!(provinces[1].group_key, "");
    assert_eq!(provinces[1].color, [209, 219, 221]);
    assert_eq!(provinces[1].biome, BiomeType::Grassland);
    assert!(provinces[1].settlement.is_none());
    assert_eq!(index.get("FR_paris"), Some(&2));
    assert_eq!(index.get("lyon"), Some(&1));
    assert_eq!(index.get("rome"), None);
}

fn config(groups: Vec<(&str, &str, Vec<&str>)>) -> MapConfig {
    MapConfig {
        groups: groups
            .into_iter()
            .map(|(k, l, ps)| {
                (k.to_string(), ConfigGroup { label: l.to_string(), paths: ps.into_iter().map(|s| s.to_string()).collect() })
            })
            .collect(),
        title: None,
        background: None,
        borders: None,
        default_color: None,
        are_borders_shown: None,
    }
}

#[test]
fn apply_config_last_group_wins() {
    let raws = vec![raw("a", ""), raw("b", ""), raw("c", "")];
    let (mut provinces, index) = build_provinces(&raws);
    let cfg = config(vec![
        ("#ff0000", "Castile", vec!["a", "b", "zz", "a"]),
        ("#00ff00", "Alpine Wasteland", vec!["b"]),
    ]);
    let groups = apply_config(&cfg, &mut provinces, &index);
    assert_eq!(provinces[0].group_key, "#ff0000");
    assert_eq!(provinces[0].group_label, "Castile");
    assert_eq!(provinces[0].color, [255, 0, 0]);
    assert!(!provinces[0].is_wasteland);
    assert_eq!(provinces[1].group_key, "#00ff00");
    assert_eq!(provinces[1].color, [0, 255, 0]);
    assert!(provinces[1].is_wasteland);
    assert_eq!(provinces[2].group_key, "");
    assert_eq!(provinces[2].group_label, "Unassigned");
    assert_eq!(groups.len(), 2);
    assert_eq!(groups[0].key, "#ff0000");
    assert_eq!(groups[0].paths.len(), 3);
    assert_eq!(groups[0].color, [255, 0, 0]);
    assert!(groups[0].capital_province_id.is_none());
    assert_eq!(groups[1].label, "Alpine Wasteland");
}

#[test]
fn export_config_groups_by_key() {
    let raws = vec![raw("a", ""), raw("b", ""), raw("c", ""), raw("d", "")];
    let (mut provinces, index) = build_provinces(&raws);
    let cfg = config(vec![("#0000ff", "France", vec!["a", "c"]), ("#ffffff", "Norway", vec!["b"])]);
    let mut groups = apply_config(&cfg, &mut provinces, &index);
    groups.remove(1);
    let out = export_config(&provinces, &groups);
    assert_eq!(out.groups.len(), 2);
    assert_eq!(out.groups[0].0, "#0000ff");
    assert_eq!(out.groups[0].1.label, "France");
    assert_eq!(out.groups[0].1.paths, vec!["a".to_string(), "c".to_string()]);
    assert_eq!(out.groups[1].0, "#ffffff");
    assert_eq!(out.groups[1].1.label, "Faction");
    assert_eq!(out.groups[1].1.paths, vec!["b".to_string()]);
    assert_eq!(out.title.as_deref(), Some("World 1450 Grand Strategy"));
    assert_eq!(out.background.as_deref(), Some("#013f3f"));
    assert_eq!(out.borders.as_deref(), Some("#000"));
    assert_eq!(out.default_color.as_deref(), Some("#d1dbdd"));
    assert_eq!(out.are_borders_shown, Some(true));
}

#[test]
fn export_then_apply_restores_factions() {
    let raws = vec![raw("a", ""), raw("b", ""), raw("c", "")];
    let (mut provinces, index) = build_provinces(&raws);
    let cfg = config(vec![("#123456", "Genoa", vec!["c", "a"])]);
    let groups = apply_config(&cfg, &mut provinces, &index);
    let exported = export_config(&provinces, &groups);
    let (mut fresh, index2) = build_provinces(&raws);
    apply_config(&exported, &mut fresh, &index2);
    for i in 0..3 {
        assert_eq!(fresh[i].group_key, provinces[i].group_key);
        assert_eq!(fresh[i].group_label, provinces[i].group_label);
        assert_eq!(fresh[i].color, provinces[i].color);
    }
}

#[test]
fn svg_fragments_parse_one_after_the_other() {
    let a = "<svg><path id=\"a\" d=\"M0 0\"/>";
    let b = "<path id=\"b\" d=\"M1 1\"/></svg>";
    let joined = parse_svg_paths(&format!("{}{}", a, b));
    let mut parts = parse_svg_paths(a);
    parts.extend(parse_svg_paths(b));
    let ids: Vec<(String, String)> = joined.iter().map(|p| (p.id.clone(), p.d.clone())).collect();
    let expected: Vec<(String, String)> = parts.iter().map(|p| (p.id.clone(), p.d.clone())).collect();
    assert_eq!(ids, expected);
    assert_eq!(ids.len(), 2);
}

#[test]
fn hex_color_keys_in_either_case() {
    for c in [[0u8, 0, 0], [10, 20, 255], [171, 205, 239], [255, 255, 255]] {
        assert_eq!(parse_hex_color(&format!("#{:02x}{:02x}{:02x}", c[0], c[1], c[2])), c);
        assert_eq!(parse_hex_color(&format!("#{:02X}{:02X}{:02X}", c[0], c[1], c[2])), c);
    }
}
