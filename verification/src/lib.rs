//! Verified core of the grand strategy map engine: SVG province parsing,
//! scenario configuration, settlement registry, palette, editor rules, the
//! province ID raster, and the choice and grouping of nation labels.

pub mod text;
pub mod types;
pub mod parser;
pub mod path_data;
pub mod settlement;
pub mod tables;
pub mod palette;
pub mod editor;
pub mod rasterizer;
pub mod labels;
pub mod clusters;
pub mod texture;
