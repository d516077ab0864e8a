use grandstrat::labels::{labelled_factions, nation_label_eligible, nation_label_provinces};
use grandstrat::parser::{build_provinces, RawPath};
use grandstrat::rasterizer::{decode_id_cache, RasterizedMap};
use grandstrat::texture::decode_texture;
use grandstrat::types::MapGroup;

#[test]
fn painting_spans_keeps_texture_in_step() {
    let mut m = RasterizedMap::blank(4, 3);
    assert_eq!(m.id_buffer.len(), 12);
    assert_eq!(m.rgba_texture_data.len(), 48);
    m.paint_spans(7, &vec![(1, 1, 10), (5, 0, 2), (0, 3, 2)]);
    assert_eq!(m.id_buffer, vec![0, 0, 0, 0, 0, 7, 7, 7, 0, 0, 0, 0]);
    assert_eq!(&m.rgba_texture_data[20..24], &[0, 0, 7, 255]);
    assert_eq!(&m.rgba_texture_data[16..20], &[0, 0, 0, 0]);
    m.paint_spans(0x010203, &vec![(2, 0, 0)]);
    assert_eq!(&m.rgba_texture_data[32..36], &[1, 2, 3, 255]);
}

#[test]
fn hit_testing() {
    let mut m = RasterizedMap::blank(4, 3);
    m.paint_spans(2, &vec![(1, 1, 1)]);
    m.paint_spans(9, &vec![(2, 3, 3)]);
    assert_eq!(m.province_at_pixel(1, 1, 5), Some(1));
    assert_eq!(m.province_at_pixel(0, 0, 5), None);
    assert_eq!(m.province_at_pixel(3, 2, 5), None);
    assert_eq!(m.province_at_pixel(3, 2, 9), Some(8));
    assert_eq!(m.province_at_pixel(-1, 1, 5), None);
    assert_eq!(m.province_at_pixel(4, 1, 5), None);
    assert_eq!(m.province_at_pixel(1, 3, 5), None);
}

#[test]
fn cache_bytes_are_little_endian() {
    let m = RasterizedMap::from_ids(2, 1, vec![0x01020304, 5]);
    assert_eq!(m.cache_bytes(), vec![4, 3, 2, 1, 5, 0, 0, 0]);
    assert_eq!(&m.rgba_texture_data[0..4], &[2, 3, 4, 255]);
}

#[test]
fn cache_of_wrong_size_is_refused() {
    assert!(decode_id_cache(&vec![1, 0, 0, 0]).is_none());
    assert!(decode_id_cache(&Vec::new()).is_none());
}

#[test]
fn cache_with_too_little_land_is_refused() {
    let bytes = vec![0u8; 9600 * 5440 * 4];
    assert!(decode_id_cache(&bytes).is_none());
}

#[test]
fn cache_roundtrip_full_size() {
    let mut ids = vec![0u32; 9600 * 5440];
    for i in 0..1_000_001 {
        ids[i] = (i % 7 + 1) as u32;
    }
    let m = RasterizedMap::from_ids(9600, 5440, ids.clone());
    let decoded = decode_id_cache(&m.cache_bytes()).unwrap();
    assert_eq!(decoded, ids);
}

#[test]
fn nation_labels_skip_wastelands_and_blanks() {
    assert!(nation_label_eligible("  France "));
    assert!(!nation_label_eligible("Alpine Wasteland"));
    assert!(!nation_label_eligible("   "));
    assert!(!nation_label_eligible("Unassigned lands"));
    assert!(!nation_label_eligible("Land Down Under? land down unda"));
    assert!(nation_label_eligible("Assorted"));
}

#[test]
fn nation_label_provinces_follow_paths() {
    let raws: Vec<RawPath> = ["a", "b", "c"].iter().map(|s| RawPath { id: s.to_string(), d: String::new() }).collect();
    let (_, index) = build_provinces(&raws);
    let g = MapGroup {
        key: "#1".to_string(),
        label: "X".to_string(),
        paths: vec!["c".to_string(), "zz".to_string(), "a".to_string()],
        color: [0, 0, 0],
        capital_province_id: None,
        capital_name: None,
    };
    assert_eq!(nation_label_provinces(&g, &index), vec![2, 0]);
}

#[test]
fn later_outlines_win_when_painting_in_order() {
    let spans = vec![vec![(0, 0, 2)], vec![(0, 1, 3), (1, 0, 0)], vec![(7, 0, 3)]];
    let m = RasterizedMap::from_spans(4, 2, &spans);
    assert_eq!(m.id_buffer, vec![1, 2, 2, 2, 2, 0, 0, 0]);
    assert_eq!(&m.rgba_texture_data[4..8], &[0, 0, 2, 255]);
    assert_eq!(RasterizedMap::from_spans(2, 1, &Vec::new()).id_buffer, vec![0, 0]);
}

#[test]
fn raster_cache_file_reads_back() {
    assert!(RasterizedMap::from_cache(&vec![1, 0, 0, 0]).is_none());
    let mut ids = vec![0u32; 9600 * 5440];
    for i in 0..1_000_001 {
        ids[i] = (i % 5 + 1) as u32;
    }
    let m = RasterizedMap::from_ids(9600, 5440, ids.clone());
    let back = RasterizedMap::from_cache(&m.cache_bytes()).unwrap();
    assert_eq!(back.width, 9600);
    assert_eq!(back.height, 5440);
    assert_eq!(back.id_buffer, ids);
    assert_eq!(back.rgba_texture_data, m.rgba_texture_data);
}

fn faction(key: &str, label: &str, paths: &[&str]) -> MapGroup {
    MapGroup {
        key: key.to_string(),
        label: label.to_string(),
        paths: paths.iter().map(|s| s.to_string()).collect(),
        color: [0, 0, 0],
        capital_province_id: None,
        capital_name: None,
    }
}

#[test]
fn labelled_factions_need_a_label_and_provinces() {
    let raws: Vec<RawPath> = ["a", "b", "c"].iter().map(|s| RawPath { id: s.to_string(), d: String::new() }).collect();
    let (_, index) = build_provinces(&raws);
    let groups = vec![
        faction("#1", "France", &["c", "a"]),
        faction("#2", "Alpine Wasteland", &["b"]),
        faction("#3", "Ghosts", &["zz"]),
        faction("#4", "  ", &["a"]),
        faction("#5", "Castile", &["b", "nope"]),
    ];
    let picked = labelled_factions(&groups, &index);
    assert_eq!(picked.len(), 2);
    assert_eq!(picked[0].group, 0);
    assert_eq!(picked[0].provinces, vec![2, 0]);
    assert_eq!(picked[1].group, 4);
    assert_eq!(picked[1].provinces, vec![1]);
}

#[test]
fn textures_decode_to_rgba() {
    let rgb: Vec<u8> = vec![200, 10, 10, 10, 200, 10, 10, 10, 200, 250, 250, 250, 0, 0, 0, 128, 128, 128];
    let mut jpeg: Vec<u8> = Vec::new();
    image::codecs::jpeg::JpegEncoder::new(&mut jpeg)
        .encode(&rgb, 3, 2, image::ExtendedColorType::Rgb8)
        .unwrap();
    let tex = decode_texture(&jpeg).unwrap();
    assert_eq!(tex.width, 3);
    assert_eq!(tex.height, 2);
    assert_eq!(tex.pixels.len(), 3 * 2 * 4);
    assert!(tex.pixels.chunks(4).all(|p| p[3] == 255));
    assert!(decode_texture(&vec![1, 2, 3, 4]).is_none());
    assert!(decode_texture(&Vec::new()).is_none());
}
