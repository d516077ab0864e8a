//! Domain model: provinces, factions (map groups), settlements, map modes,
//! editor tools and the MapChart scenario configuration.

use vstd::prelude::*;

verus! {

/// Geographic biome of a province.
#[derive(Clone, Copy, PartialEq, Eq, Debug, Structural)]
pub enum BiomeType {
    Grassland,
    Woods,
    Forest,
    Jungle,
    Taiga,
    Steppe,
    Desert,
    Savanna,
    Tundra,
    Marsh,
}

/// Urban rank of a settlement.
#[derive(Clone, Copy, PartialEq, Eq, Debug, Structural)]
pub enum SettlementTier {
    Capital,
    City,
    Town,
}

/// The settlement that stands in a province.
#[derive(Clone, Debug)]
pub struct SettlementInfo {
    pub name: String,
    pub tier: SettlementTier,
    pub is_capital: bool,
}

/// One province (SVG path) of the map. Its geometry (centroid) is kept by
/// the renderer; the library holds what its rules read.
#[derive(Clone, Debug)]
pub struct Province {
    pub index: usize,
    pub id: String,
    pub name: String,
    pub group_key: String,
    pub group_label: String,
    pub color: [u8; 3],
    pub is_wasteland: bool,
    pub settlement: Option<SettlementInfo>,
    pub biome: BiomeType,
}

/// A faction: a country, empire or regional tag, keyed by its MapChart colour key.
#[derive(Clone, Debug)]
pub struct MapGroup {
    pub key: String,
    pub label: String,
    pub paths: Vec<String>,
    pub color: [u8; 3],
    pub capital_province_id: Option<String>,
    pub capital_name: Option<String>,
}

/// How provinces are coloured on the map.
#[derive(Clone, Copy, PartialEq, Eq, Debug, Structural)]
pub enum MapMode {
    Political,
    Terrain,
    Wastelands,
    Independent,
    Plain,
}

/// How nation names are laid out.
#[derive(Clone, Copy, PartialEq, Eq, Debug, Structural)]
pub enum LabelAlgorithm {
    Standard,
    Curved,
}

/// A settlement of the registry. Its world position is the centroid of
/// province `province_index`, which the renderer keeps.
#[derive(Clone, Debug)]
pub struct Settlement {
    pub name: String,
    pub province_id: String,
    pub province_index: usize,
    pub tier: SettlementTier,
    pub group_key: String,
    pub is_coastal: bool,
}

/// The scenario editor's tools.
#[derive(Clone, Copy, PartialEq, Eq, Debug, Structural)]
pub enum EditorTool {
    Brush,
    Eraser,
    Eyedropper,
}

/// One group of a MapChart configuration: its label and the ids of its paths.
#[derive(Clone, Debug)]
pub struct ConfigGroup {
    pub label: String,
    pub paths: Vec<String>,
}

/// A MapChart configuration. `groups` pairs each group key with its group;
/// the keys are distinct.
#[derive(Clone, Debug)]
pub struct MapConfig {
    pub groups: Vec<(String, ConfigGroup)>,
    pub title: Option<String>,
    pub background: Option<String>,
    pub borders: Option<String>,
    pub default_color: Option<String>,
    pub are_borders_shown: Option<bool>,
}

impl MapConfig {
    /// The group keys are distinct.
    pub open spec fn wf(&self) -> bool {
        forall|i: int, j: int|
            0 <= i < j < self.groups@.len() ==> #[trigger] self.groups@[i].0@ != #[trigger] self.groups@[j].0@
    }
}

} // verus!
