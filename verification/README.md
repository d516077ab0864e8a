# grandstrat

A grand strategy map engine and scenario editor for a world of provinces
(the 1450 scenario in MapChart format). The rules of the engine are a
library verified with Verus; the window, the GPU renderer and the floating-point
geometry around it are ordinary Rust.

## Layout

- `src/` — the verified library
  - `parser.rs`: SVG `<path>` extraction, MapChart colour keys, building
    provinces, applying and exporting a scenario configuration
  - `path_data.rs`: tokenizing SVG path data into commands and number tokens
  - `settlement.rs`: location names, biomes, predefined capitals and cities,
    a guaranteed capital for every faction, the ranked settlement registry,
    and the spacing of visible settlements
  - `tables.rs`: the predefined capital and city tables
  - `palette.rs`: the colour of each province per map mode, and the palette texture
  - `editor.rs`: editor state, brush, eraser, eyedropper, keeping the factions'
    path lists in step, custom factions, province search, the faction list,
    keyboard shortcuts
  - `rasterizer.rs`: the province ID raster, its texture, hit testing and its cache file
  - `labels.rs`, `clusters.rs`: which factions get nation labels, their provinces,
    landmass clustering and largest-first ordering
  - `texture.rs`: decoding texture images into RGBA pixels
  - `text.rs`: character-level string helpers
- `tests/` — tests of the library
- `app/` — the eframe application: camera, GPU renderer, path geometry and
  rasterization, label placement, overlays and the egui windows

## Running

The application reads `Blank_Map.svg` and `mapchart-config-world-1450.txt`
from the working directory, caches the ID raster in `provinces_cache.bin`, and
reads its relief, ocean and terrain textures from `assets/textures/`.
