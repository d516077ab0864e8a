use grandstrat::parser::build_provinces;
use grandstrat::parser::RawPath;
use grandstrat::settlement::{classify_biome, format_location_name, GridPoint, SettlementRegistry};
use grandstrat::types::{BiomeType, MapGroup, SettlementTier};

#[test]
fn location_names_are_title_cased() {
    assert_eq!(format_location_name("saint-jean_de_luz"), "Saint-Jean De Luz");
    assert_eq!(format_location_name("al_qahirah"), "Al Qahirah");
    assert_eq!(format_location_name("ßx"), "SSx");
    assert_eq!(format_location_name(""), "");
    assert_eq!(format_location_name("__a"), "  A");
}

#[test]
fn biomes_by_region() {
    assert_eq!(classify_biome(GridPoint { x2: 1000, y2: 500 }), BiomeType::Desert);
    assert_eq!(classify_biome(GridPoint { x2: 0, y2: 139 }), BiomeType::Tundra);
    assert_eq!(classify_biome(GridPoint { x2: 0, y2: 140 }), BiomeType::Taiga);
    assert_eq!(classify_biome(GridPoint { x2: 600, y2: 600 }), BiomeType::Jungle);
    assert_eq!(classify_biome(GridPoint { x2: 1500, y2: 300 }), BiomeType::Steppe);
    assert_eq!(classify_biome(GridPoint { x2: 1000, y2: 300 }), BiomeType::Forest);
    assert_eq!(classify_biome(GridPoint { x2: 2, y2: 1000 }), BiomeType::Grassland);
    // just beyond the Sahara's southern edge at y = 310
    assert_eq!(classify_biome(GridPoint { x2: 1000, y2: 621 }), BiomeType::Grassland);
    assert_eq!(classify_biome(GridPoint { x2: 1000, y2: 620 }), BiomeType::Desert);
}

fn group(key: &str, label: &str) -> MapGroup {
    MapGroup {
        key: key.to_string(),
        label: label.to_string(),
        paths: Vec::new(),
        color: [0, 0, 0],
        capital_province_id: None,
        capital_name: None,
    }
}

#[test]
fn every_faction_gets_a_capital() {
    let raws: Vec<RawPath> = ["Paris", "rouen", "foo_bar", "baz", "qux"]
        .iter()
        .map(|s| RawPath { id: s.to_string(), d: String::new() })
        .collect();
    let (mut provinces, _) = build_provinces(&raws);
    provinces[0].group_key = "#a".to_string();
    provinces[1].group_key = "#a".to_string();
    provinces[2].group_key = "#b".to_string();
    provinces[3].group_key = "#b".to_string();
    provinces[3].is_wasteland = true;
    let mut groups = vec![group("#b", "Bees"), group("#a", "Aces"), group("#c", "Cees")];
    let members = SettlementRegistry::faction_members(&provinces);
    assert_eq!(members.len(), 2);
    assert_eq!(members[0].key, "#a");
    assert_eq!(members[0].members, vec![0, 1]);
    assert_eq!(members[1].key, "#b");
    assert_eq!(members[1].members, vec![2]);
    let points = vec![GridPoint { x2: 0, y2: 0 }; 5];
    let central = vec![1, 2];
    let reg = SettlementRegistry::build(&mut provinces, &mut groups, &points, &central);
    assert_eq!(provinces[0].biome, BiomeType::Tundra);
    let paris = provinces[0].settlement.as_ref().unwrap();
    assert_eq!(paris.name, "Paris");
    assert_eq!(paris.tier, SettlementTier::Capital);
    let rouen = provinces[1].settlement.as_ref().unwrap();
    assert_eq!(rouen.tier, SettlementTier::City);
    assert!(!rouen.is_capital);
    let foo = provinces[2].settlement.as_ref().unwrap();
    assert_eq!(foo.name, "Foo Bar");
    assert_eq!(foo.tier, SettlementTier::Capital);
    assert!(provinces[3].settlement.is_none());
    assert!(provinces[4].settlement.is_none());
    assert_eq!(groups[0].capital_province_id.as_deref(), Some("foo_bar"));
    assert_eq!(groups[0].capital_name.as_deref(), Some("Foo Bar"));
    assert_eq!(groups[1].capital_province_id.as_deref(), Some("Paris"));
    assert_eq!(groups[1].capital_name.as_deref(), Some("Paris"));
    assert!(groups[2].capital_province_id.is_none());
    let names: Vec<&str> = reg.settlements.iter().map(|s| s.name.as_str()).collect();
    assert_eq!(names, vec!["Paris", "Foo Bar", "Rouen"]);
    assert_eq!(reg.settlements[1].province_index, 2);
    assert_eq!(reg.settlements[2].tier, SettlementTier::City);
    assert!(reg.settlements.iter().all(|s| !s.is_coastal));
}

#[test]
fn city_is_kept_as_city_when_chosen_as_capital() {
    let raws: Vec<RawPath> = ["x", "Porto"].iter().map(|s| RawPath { id: s.to_string(), d: String::new() }).collect();
    let (mut provinces, _) = build_provinces(&raws);
    provinces[0].group_key = "#p".to_string();
    provinces[1].group_key = "#p".to_string();
    let mut groups = vec![group("#p", "Portugal")];
    let points = vec![GridPoint { x2: 2000, y2: 2000 }; 2];
    let reg = SettlementRegistry::build(&mut provinces, &mut groups, &points, &vec![0]);
    assert_eq!(groups[0].capital_province_id.as_deref(), Some("Porto"));
    assert_eq!(groups[0].capital_name.as_deref(), Some("Porto"));
    assert_eq!(provinces[1].settlement.as_ref().unwrap().tier, SettlementTier::City);
    assert!(provinces[0].settlement.is_none());
    assert_eq!(reg.settlements.len(), 1);
}

fn snapshot(provinces: &[grandstrat::types::Province]) -> Vec<(Option<(String, SettlementTier, bool)>, BiomeType)> {
    provinces
        .iter()
        .map(|p| (p.settlement.as_ref().map(|s| (s.name.clone(), s.tier, s.is_capital)), p.biome))
        .collect()
}

#[test]
fn rebuilding_the_registry_changes_nothing() {
    let raws: Vec<RawPath> = ["Paris", "rouen", "foo_bar", "baz", "x", "Porto"]
        .iter()
        .map(|s| RawPath { id: s.to_string(), d: String::new() })
        .collect();
    let (mut provinces, _) = build_provinces(&raws);
    for (i, k) in ["#a", "#a", "#b", "#b", "#p", "#p"].iter().enumerate() {
        provinces[i].group_key = k.to_string();
    }
    let mut groups = vec![group("#a", "Aces"), group("#b", "Bees"), group("#p", "Portugal")];
    let points = vec![GridPoint { x2: 1000, y2: 300 }; 6];
    let central = vec![1, 3, 4];
    let reg1 = SettlementRegistry::build(&mut provinces, &mut groups, &points, &central);
    let first = snapshot(&provinces);
    let caps1: Vec<_> = groups.iter().map(|g| (g.capital_province_id.clone(), g.capital_name.clone())).collect();
    assert_eq!(caps1[1], (Some("baz".to_string()), Some("Baz".to_string())));
    let reg2 = SettlementRegistry::build(&mut provinces, &mut groups, &points, &central);
    assert_eq!(snapshot(&provinces), first);
    let caps2: Vec<_> = groups.iter().map(|g| (g.capital_province_id.clone(), g.capital_name.clone())).collect();
    assert_eq!(caps1, caps2);
    let names1: Vec<(String, usize)> = reg1.settlements.iter().map(|s| (s.name.clone(), s.province_index)).collect();
    let names2: Vec<(String, usize)> = reg2.settlements.iter().map(|s| (s.name.clone(), s.province_index)).collect();
    assert_eq!(names1, names2);
}
