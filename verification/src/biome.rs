//! Terrain classification: the closed set of Civ-style terrains, elevation
//! bands and features a cell can end up with.
use crate::grid::{
    cell_index, coords_as_int, lemma_coords_of_index, lemma_neighbor_coords_shape,
    neighbor_coords, Grid,
};
use crate::noise::{cell_random_bits, spec_cell_bits};
use vstd::prelude::*;

verus! {

/// Base terrain, Civ-style: a small closed set of types, with ruggedness and
/// vegetation layered on top as [`ElevationBand`]/[`Feature`] rather than
/// folded into more terrain variants.
#[derive(Clone, Copy, Debug, PartialEq, Eq, Structural)]
pub enum Terrain {
    Ocean,
    Coast,
    /// Frozen ocean/coast near the poles: same underlying water, just cold
    /// enough to render (and eventually play) differently.
    Ice,
    Lake,
    Grassland,
    Plains,
    /// Hot, moderately dry grassland: fills the gap between Desert (too
    /// dry) and Plains/Grassland (temperate) for warm climates.
    Savanna,
    /// Cold, dry grassland: the cold-climate counterpart to Desert, the way
    /// Savanna is the warm-climate counterpart to Plains.
    Steppe,
    Desert,
    Tundra,
    Snow,
}

impl Default for Terrain {
    fn default() -> (r: Self)
        ensures
            r == Terrain::Ocean,
    {
        Terrain::Ocean
    }
}

#[derive(Clone, Copy, Debug, PartialEq, Eq, Structural)]
pub enum ElevationBand {
    Flat,
    Hills,
    Mountains,
}

impl Default for ElevationBand {
    fn default() -> (r: Self)
        ensures
            r == ElevationBand::Flat,
    {
        ElevationBand::Flat
    }
}

#[derive(Clone, Copy, Debug, PartialEq, Eq, Structural)]
pub enum Feature {
    Forest,
    Jungle,
    Marsh,
    /// Rare, on Mountains only.
    Volcano,
    /// Rare, on Desert only.
    Oasis,
    /// A fertile strip directly along a river running through otherwise-arid
    /// land (Desert/Steppe): distinct from Marsh, which is a wetland from
    /// generally high ambient moisture rather than one specific river.
    Floodplains,
    /// Warm shallow water next to Coast. A feature on `Terrain::Coast`, not
    /// its own terrain.
    Reef,
}

#[derive(Clone, Copy, Debug, PartialEq, Eq, Structural)]
pub struct FeatureCell(pub Option<Feature>);

impl Default for FeatureCell {
    fn default() -> (r: Self)
        ensures
            r == FeatureCell(None),
    {
        FeatureCell(None)
    }
}

pub struct BiomeMaps {
    pub terrain: Grid<Terrain>,
    pub elevation_band: Grid<ElevationBand>,
    pub feature: Grid<FeatureCell>,
}

/// What the classifier reads of a cell's climate, as ranks against the
/// classification thresholds: a value's rank is twice the number of
/// thresholds strictly below it, plus one if it sits exactly on one, so
/// "value < t_i" is "rank < 2i - 1" and "value > t_i" is "rank > 2i - 1"
/// for the i-th threshold (1-based, ascending).
///
/// Temperature thresholds: 0.12, 0.2, 0.25, 0.3, 0.4, 0.55, 0.6, 0.75, 0.85.
/// Moisture thresholds: 0.3, 0.45, 0.6.
/// The mountain mask is read only through its band (above 0.5 Mountains,
/// above 0.15 Hills, otherwise Flat).
pub struct ClimateClasses {
    pub temperature_rank: Grid<u8>,
    pub moisture_rank: Grid<u8>,
    pub mountain_band: Grid<ElevationBand>,
}

/// `ceil(p * 2^53)` for the per-cell draw probabilities: a draw is below
/// `p` exactly when its 53-bit integer is below this.
pub const REEF_DRAW_BELOW: u64 = 1981583836043019;

pub const VOLCANO_DRAW_BELOW: u64 = 450359962737050;

pub const OASIS_DRAW_BELOW: u64 = 810647932926690;

/// Some 8-neighbor of `(x, y)` (between the poles) reads `want` in `g`.
pub open spec fn any_neighbor(g: Grid<bool>, x: int, y: int, want: bool) -> bool {
    exists|t: int|
        0 <= t < neighbor_coords(x, y, g.height as int, 8).len() && #[trigger] g.at(
            neighbor_coords(x, y, g.height as int, 8)[t].0,
            neighbor_coords(x, y, g.height as int, 8)[t].1,
        ) == want
}

/// The terrain of a water cell: ice when frozen (temperature below 0.12),
/// open ocean when no neighbor is land, coast otherwise.
pub open spec fn water_terrain(temp_rank: int, land_nearby: bool) -> Terrain {
    if temp_rank < 1 {
        Terrain::Ice
    } else if !land_nearby {
        Terrain::Ocean
    } else {
        Terrain::Coast
    }
}

/// A land cell's base terrain from its temperature and moisture.
pub open spec fn land_terrain(temp_rank: int, moist_rank: int) -> Terrain {
    if temp_rank < 3 {
        Terrain::Snow
    } else if temp_rank < 9 {
        Terrain::Tundra
    } else if moist_rank < 1 {
        if temp_rank > 11 {
            Terrain::Desert
        } else {
            Terrain::Steppe
        }
    } else if moist_rank < 3 {
        if temp_rank > 11 {
            Terrain::Savanna
        } else {
            Terrain::Plains
        }
    } else {
        Terrain::Grassland
    }
}

/// A land cell's feature, first match wins: a rare volcano on mountains, a
/// rare oasis in desert, floodplains along a river through flat arid land,
/// marsh on wet, mild, flat ground next to water, jungle on hot, wet
/// grassland/plains, forest on wet enough, not frozen, non-mountain
/// grassland/plains/tundra.
pub open spec fn land_feature(
    band: ElevationBand,
    base: Terrain,
    temp_rank: int,
    moist_rank: int,
    on_river: bool,
    near_water: bool,
    volcano_bits: u64,
    oasis_bits: u64,
) -> Option<Feature> {
    let is_arid = base == Terrain::Desert || base == Terrain::Steppe;
    let is_flat_fertile = base == Terrain::Grassland || base == Terrain::Plains;
    if band == ElevationBand::Mountains && volcano_bits < VOLCANO_DRAW_BELOW {
        Some(Feature::Volcano)
    } else if base == Terrain::Desert && oasis_bits < OASIS_DRAW_BELOW {
        Some(Feature::Oasis)
    } else if band == ElevationBand::Flat && on_river && is_arid {
        Some(Feature::Floodplains)
    } else if band == ElevationBand::Flat && near_water && moist_rank > 5 && temp_rank > 7
        && temp_rank < 17 {
        Some(Feature::Marsh)
    } else if temp_rank > 15 && moist_rank > 5 && is_flat_fertile {
        Some(Feature::Jungle)
    } else if band != ElevationBand::Mountains && moist_rank > 3 && temp_rank > 5 && (base
        == Terrain::Grassland || base == Terrain::Plains || base == Terrain::Tundra) {
        Some(Feature::Forest)
    } else {
        None
    }
}

/// Terrain, elevation band and feature of normalized cell `(x, y)`.
pub open spec fn cell_biome(
    seed: u64,
    is_ocean: Grid<bool>,
    is_lake: Grid<bool>,
    is_river: Grid<bool>,
    classes: ClimateClasses,
    x: int,
    y: int,
) -> (Terrain, ElevationBand, FeatureCell) {
    let temp = classes.temperature_rank.at(x, y) as int;
    let moist = classes.moisture_rank.at(x, y) as int;
    if is_ocean.at(x, y) {
        let land_nearby = any_neighbor(is_ocean, x, y, false);
        let terrain = water_terrain(temp, land_nearby);
        let reef = terrain == Terrain::Coast && temp > 13 && spec_cell_bits(
            x as u64,
            y as u64,
            seed ^ 0x2EEFu64,
        ) < REEF_DRAW_BELOW;
        (
            terrain,
            ElevationBand::Flat,
            FeatureCell(
                if reef {
                    Some(Feature::Reef)
                } else {
                    None
                },
            ),
        )
    } else if is_lake.at(x, y) {
        (Terrain::Lake, ElevationBand::Flat, FeatureCell(None))
    } else {
        let band = classes.mountain_band.at(x, y);
        let base = land_terrain(temp, moist);
        let on_river = is_river.at(x, y) || any_neighbor(is_river, x, y, true);
        let near_water = on_river || any_neighbor(is_lake, x, y, true) || any_neighbor(
            is_ocean,
            x,
            y,
            true,
        );
        let feat = land_feature(
            band,
            base,
            temp,
            moist,
            on_river,
            near_water,
            spec_cell_bits(x as u64, y as u64, seed ^ 0xC0FFEEu64),
            spec_cell_bits(x as u64, y as u64, seed ^ 0xFACADEu64),
        );
        (base, band, FeatureCell(feat))
    }
}

/// The seed only draws volcanoes, oases and reefs: two seeds give every
/// cell the same terrain and elevation band, and where its feature differs
/// one of the two is a volcano, an oasis or a reef.
pub proof fn lemma_seed_only_draws(
    s1: u64,
    s2: u64,
    is_ocean: Grid<bool>,
    is_lake: Grid<bool>,
    is_river: Grid<bool>,
    classes: ClimateClasses,
    x: int,
    y: int,
)
    ensures
        cell_biome(s1, is_ocean, is_lake, is_river, classes, x, y).0 == cell_biome(
            s2,
            is_ocean,
            is_lake,
            is_river,
            classes,
            x,
            y,
        ).0,
        cell_biome(s1, is_ocean, is_lake, is_river, classes, x, y).1 == cell_biome(
            s2,
            is_ocean,
            is_lake,
            is_river,
            classes,
            x,
            y,
        ).1,
        cell_biome(s1, is_ocean, is_lake, is_river, classes, x, y).2 != cell_biome(
            s2,
            is_ocean,
            is_lake,
            is_river,
            classes,
            x,
            y,
        ).2 ==> seed_drawn(cell_biome(s1, is_ocean, is_lake, is_river, classes, x, y).2)
            || seed_drawn(cell_biome(s2, is_ocean, is_lake, is_river, classes, x, y).2),
{
}

/// A feature that a per-cell draw from the seed decides.
pub open spec fn seed_drawn(f: FeatureCell) -> bool {
    f.0 == Some(Feature::Volcano) || f.0 == Some(Feature::Oasis) || f.0 == Some(Feature::Reef)
}

/// What `classify` promises of its result, cell by cell.
pub open spec fn classified(
    width: usize,
    height: usize,
    seed: u64,
    is_ocean: Grid<bool>,
    is_lake: Grid<bool>,
    is_river: Grid<bool>,
    classes: ClimateClasses,
    r: BiomeMaps,
) -> bool {
    &&& r.terrain.wf() && r.terrain.width == width && r.terrain.height == height
    &&& r.elevation_band.wf() && r.elevation_band.width == width && r.elevation_band.height == height
    &&& r.feature.wf() && r.feature.width == width && r.feature.height == height
    &&& forall|c: int|
        0 <= c < width * height ==> {
            let b = cell_biome(seed, is_ocean, is_lake, is_river, classes, c % width as int, c / width as int);
            &&& #[trigger] r.terrain@[c] == b.0
            &&& r.elevation_band@[c] == b.1
            &&& r.feature@[c] == b.2
        }
}

/// Some cell next to `(x, y)`, or the cell itself for a river, holds water:
/// a river through or beside it, or a lake or ocean beside it.
pub open spec fn water_near(is_ocean: Grid<bool>, is_lake: Grid<bool>, is_river: Grid<bool>, x: int, y: int) -> bool {
    is_river.at(x, y) || any_neighbor(is_river, x, y, true) || any_neighbor(is_lake, x, y, true)
        || any_neighbor(is_ocean, x, y, true)
}

/// The terrain and elevation band `classify` gives each cell, from its
/// water masks and climate ranks (temperature rank `t`, moisture rank `m`;
/// rank thresholds as listed on `ClimateClasses`): frozen sea (t < 1) is
/// Ice, other sea is Ocean out of sight of land and Coast beside it, a lake
/// is Lake; on land t < 3 is Snow, t < 9 Tundra, and warmer land is, by
/// moisture, Desert/Steppe (m = 0, hot above t = 11), Savanna/Plains
/// (m = 1 or 2, hot above t = 11) or Grassland (m >= 3). Water is Flat;
/// land takes its mountain band.
pub proof fn lemma_classified_terrain(
    width: usize,
    height: usize,
    seed: u64,
    is_ocean: Grid<bool>,
    is_lake: Grid<bool>,
    is_river: Grid<bool>,
    classes: ClimateClasses,
    r: BiomeMaps,
    c: int,
)
    requires
        classified(width, height, seed, is_ocean, is_lake, is_river, classes, r),
        0 <= c < width * height,
    ensures
        ({
            let x = c % width as int;
            let y = c / width as int;
            let t = classes.temperature_rank.at(x, y);
            let m = classes.moisture_rank.at(x, y);
            let sea = is_ocean.at(x, y);
            let lake = is_lake.at(x, y);
            let land = !sea && !lake;
            &&& sea && t < 1 ==> r.terrain@[c] == Terrain::Ice
            &&& sea && t >= 1 && !any_neighbor(is_ocean, x, y, false) ==> r.terrain@[c] == Terrain::Ocean
            &&& sea && t >= 1 && any_neighbor(is_ocean, x, y, false) ==> r.terrain@[c] == Terrain::Coast
            &&& !sea && lake ==> r.terrain@[c] == Terrain::Lake
            &&& land && t < 3 ==> r.terrain@[c] == Terrain::Snow
            &&& land && 3 <= t < 9 ==> r.terrain@[c] == Terrain::Tundra
            &&& land && t > 11 && m == 0 ==> r.terrain@[c] == Terrain::Desert
            &&& land && 9 <= t <= 11 && m == 0 ==> r.terrain@[c] == Terrain::Steppe
            &&& land && t > 11 && 1 <= m <= 2 ==> r.terrain@[c] == Terrain::Savanna
            &&& land && 9 <= t <= 11 && 1 <= m <= 2 ==> r.terrain@[c] == Terrain::Plains
            &&& land && t >= 9 && m >= 3 ==> r.terrain@[c] == Terrain::Grassland
            &&& !land ==> r.elevation_band@[c] == ElevationBand::Flat
            &&& land ==> r.elevation_band@[c] == classes.mountain_band.at(x, y)
        }),
{
    assert(r.terrain@[c] == r.terrain@[c]);
}

/// The features `classify` gives: a reef only on warm coast (t > 13), no
/// feature on a lake or other water, a volcano only on mountains, an oasis
/// only in desert; and on land, with `t`, `m` the ranks and "near water"
/// a river through or beside the cell or a lake or ocean beside it:
/// floodplains on flat arid land along a river, marsh on flat land near
/// water with m > 5 and 7 < t < 17, jungle on hot (t > 15), wet (m > 5)
/// land off the mountains that is not such marsh, forest on land off the
/// mountains with m > 3 and 5 < t <= 15 away from flat water-side ground.
pub proof fn lemma_classified_features(
    width: usize,
    height: usize,
    seed: u64,
    is_ocean: Grid<bool>,
    is_lake: Grid<bool>,
    is_river: Grid<bool>,
    classes: ClimateClasses,
    r: BiomeMaps,
    c: int,
)
    requires
        classified(width, height, seed, is_ocean, is_lake, is_river, classes, r),
        0 <= c < width * height,
    ensures
        ({
            let x = c % width as int;
            let y = c / width as int;
            let t = classes.temperature_rank.at(x, y);
            let m = classes.moisture_rank.at(x, y);
            let band = classes.mountain_band.at(x, y);
            let sea = is_ocean.at(x, y);
            let lake = is_lake.at(x, y);
            let land = !sea && !lake;
            let river = is_river.at(x, y) || any_neighbor(is_river, x, y, true);
            let near = water_near(is_ocean, is_lake, is_river, x, y);
            let f = r.feature@[c].0;
            &&& sea ==> (f == None::<Feature> || f == Some(Feature::Reef))
            &&& f == Some(Feature::Reef) ==> sea && r.terrain@[c] == Terrain::Coast && t > 13
            &&& !sea && lake ==> f == None::<Feature>
            &&& f == Some(Feature::Volcano) ==> land && band == ElevationBand::Mountains
            &&& f == Some(Feature::Oasis) ==> land && r.terrain@[c] == Terrain::Desert
            &&& land && band == ElevationBand::Flat && river && t >= 9 && m == 0 && f != Some(
                Feature::Oasis,
            ) ==> f == Some(Feature::Floodplains)
            &&& land && band == ElevationBand::Flat && near && m > 5 && 7 < t < 17 ==> f == Some(
                Feature::Marsh,
            )
            &&& land && band != ElevationBand::Mountains && t > 15 && m > 5 && !(band
                == ElevationBand::Flat && near && t < 17) ==> f == Some(Feature::Jungle)
            &&& land && band != ElevationBand::Mountains && !(band == ElevationBand::Flat && near)
                && m > 3 && 5 < t <= 15 ==> f == Some(Feature::Forest)
            &&& land && band == ElevationBand::Hills && m <= 3 && !(t > 11 && m == 0) ==> f == None::<
                Feature,
            >
            &&& land ==> (f == Some(Feature::Volcano) <==> band == ElevationBand::Mountains
                && spec_cell_bits(x as u64, y as u64, seed ^ 0xC0FFEEu64) < 450359962737050u64)
            &&& f == Some(Feature::Oasis) ==> spec_cell_bits(x as u64, y as u64, seed ^ 0xFACADEu64)
                < 810647932926690u64
            &&& land && t > 11 && m == 0 && band != ElevationBand::Mountains && spec_cell_bits(
                x as u64,
                y as u64,
                seed ^ 0xFACADEu64,
            ) < 810647932926690u64 ==> f == Some(Feature::Oasis)
            &&& sea ==> (f == Some(Feature::Reef) <==> r.terrain@[c] == Terrain::Coast && t > 13
                && spec_cell_bits(x as u64, y as u64, seed ^ 0x2EEFu64) < 1981583836043019u64)
        }),
{
    assert(r.terrain@[c] == r.terrain@[c]);
}

/// All input grids share one shape.
pub open spec fn inputs_agree(
    width: usize,
    height: usize,
    is_ocean: Grid<bool>,
    is_lake: Grid<bool>,
    is_river: Grid<bool>,
    classes: ClimateClasses,
) -> bool {
    &&& is_ocean.wf() && is_ocean.width == width && is_ocean.height == height
    &&& is_lake.wf() && is_lake.width == width && is_lake.height == height
    &&& is_river.wf() && is_river.width == width && is_river.height == height
    &&& classes.temperature_rank.wf() && classes.temperature_rank.width == width
        && classes.temperature_rank.height == height
    &&& classes.moisture_rank.wf() && classes.moisture_rank.width == width
        && classes.moisture_rank.height == height
    &&& classes.mountain_band.wf() && classes.mountain_band.width == width
        && classes.mountain_band.height == height
}

/// Whether some 8-neighbor of `(x, y)` reads `want`.
pub fn any_neighbor_is(g: &Grid<bool>, x: i64, y: i64, want: bool) -> (r: bool)
    requires
        g.usable(),
        0 <= x < g.width,
        0 <= y < g.height,
    ensures
        r == any_neighbor(*g, x as int, y as int, want),
{
    let nbrs = g.neighbors(x, y);
    let ghost nc = neighbor_coords(x as int, y as int, g.height as int, 8);
    let mut t: usize = 0;
    while t < nbrs.len()
        invariant
            g.usable(),
            nc == neighbor_coords(x as int, y as int, g.height as int, 8),
            coords_as_int(nbrs@) == nc,
            t <= nbrs@.len(),
            forall|t2: int| 0 <= t2 < t ==> #[trigger] g.at(nc[t2].0, nc[t2].1) != want,
        decreases nbrs@.len() - t,
    {
        let (nx, ny) = nbrs[t];
        assert(nc[t as int] == (nx as int, ny as int));
        if *g.get(nx, ny) == want {
            assert(nc.len() == nbrs@.len());
            assert(g.at(nc[t as int].0, nc[t as int].1) == want);
            return true;
        }
        t = t + 1;
    }
    false
}

/// Classifies every cell into terrain, elevation band and feature from the
/// hydrology masks and the climate ranks (see `cell_biome`).
pub fn classify(
    width: usize,
    height: usize,
    seed: u64,
    is_ocean: &Grid<bool>,
    is_lake: &Grid<bool>,
    is_river: &Grid<bool>,
    classes: &ClimateClasses,
) -> (r: BiomeMaps)
    requires
        inputs_agree(width, height, *is_ocean, *is_lake, *is_river, *classes),
    ensures
        r.terrain.wf() && r.terrain.width == width && r.terrain.height == height,
        r.elevation_band.wf() && r.elevation_band.width == width && r.elevation_band.height
            == height,
        r.feature.wf() && r.feature.width == width && r.feature.height == height,
        forall|c: int|
            0 <= c < width * height ==> {
                let b = cell_biome(
                    seed,
                    *is_ocean,
                    *is_lake,
                    *is_river,
                    *classes,
                    c % width as int,
                    c / width as int,
                );
                &&& #[trigger] r.terrain@[c] == b.0
                &&& r.elevation_band@[c] == b.1
                &&& r.feature@[c] == b.2
            },
        classified(width, height, seed, *is_ocean, *is_lake, *is_river, *classes, r),
{
    let n = is_ocean.cells.len();
    let mut terrain = Grid::filled(width, height, Terrain::Ocean);
    let mut elevation_band = Grid::filled(width, height, ElevationBand::Flat);
    let mut feature = Grid::filled(width, height, FeatureCell(None));
    if width == 0 || height == 0 {
        proof {
            assert(width * height == 0) by (nonlinear_arith)
                requires
                    width == 0 || height == 0,
            ;
        }
        return BiomeMaps { terrain, elevation_band, feature };
    }
    let ghost w = width as int;
    let ghost h = height as int;
    let mut i: usize = 0;
    while i < n
        invariant
            inputs_agree(width, height, *is_ocean, *is_lake, *is_river, *classes),
            n == width * height,
            0 < width,
            0 < height,
            w == width,
            h == height,
            i <= n,
            terrain.wf() && terrain.width == width && terrain.height == height,
            elevation_band.wf() && elevation_band.width == width && elevation_band.height
                == height,
            feature.wf() && feature.width == width && feature.height == height,
            forall|c: int|
                0 <= c < i ==> {
                    let b = cell_biome(
                        seed,
                        *is_ocean,
                        *is_lake,
                        *is_river,
                        *classes,
                        c % w,
                        c / w,
                    );
                    &&& #[trigger] terrain@[c] == b.0
                    &&& elevation_band@[c] == b.1
                    &&& feature@[c] == b.2
                },
        decreases n - i,
    {
        proof {
            lemma_coords_of_index(w, h, i as int);
        }
        let xu = i % width;
        let yu = i / width;
        let x = xu as i64;
        let y = yu as i64;
        let ghost b = cell_biome(seed, *is_ocean, *is_lake, *is_river, *classes, x as int, y as int);
        let temp = *classes.temperature_rank.get(x, y);
        let moist = *classes.moisture_rank.get(x, y);
        let (t_out, band_out, feat_out) = if *is_ocean.get(x, y) {
            let near_land = any_neighbor_is(is_ocean, x, y, false);
            if temp < 1 {
                (Terrain::Ice, ElevationBand::Flat, FeatureCell(None))
            } else if !near_land {
                (Terrain::Ocean, ElevationBand::Flat, FeatureCell(None))
            } else {
                let reef = temp > 13 && cell_random_bits(xu, yu, seed ^ 0x2EEF) < REEF_DRAW_BELOW;
                (
                    Terrain::Coast,
                    ElevationBand::Flat,
                    FeatureCell(
                        if reef {
                            Some(Feature::Reef)
                        } else {
                            None
                        },
                    ),
                )
            }
        } else if *is_lake.get(x, y) {
            (Terrain::Lake, ElevationBand::Flat, FeatureCell(None))
        } else {
            let band = *classes.mountain_band.get(x, y);
            let base = if temp < 3 {
                Terrain::Snow
            } else if temp < 9 {
                Terrain::Tundra
            } else if moist < 1 {
                if temp > 11 {
                    Terrain::Desert
                } else {
                    Terrain::Steppe
                }
            } else if moist < 3 {
                if temp > 11 {
                    Terrain::Savanna
                } else {
                    Terrain::Plains
                }
            } else {
                Terrain::Grassland
            };
            let on_river = *is_river.get(x, y) || any_neighbor_is(is_river, x, y, true);
            let near_water = on_river || any_neighbor_is(is_lake, x, y, true) || any_neighbor_is(
                is_ocean,
                x,
                y,
                true,
            );
            let is_flat_fertile = base == Terrain::Grassland || base == Terrain::Plains;
            let is_arid = base == Terrain::Desert || base == Terrain::Steppe;
            let feat = if band == ElevationBand::Mountains && cell_random_bits(
                xu,
                yu,
                seed ^ 0xC0FFEE,
            ) < VOLCANO_DRAW_BELOW {
                Some(Feature::Volcano)
            } else if base == Terrain::Desert && cell_random_bits(xu, yu, seed ^ 0xFACADE)
                < OASIS_DRAW_BELOW {
                Some(Feature::Oasis)
            } else if band == ElevationBand::Flat && on_river && is_arid {
                Some(Feature::Floodplains)
            } else if band == ElevationBand::Flat && near_water && moist > 5 && temp > 7 && temp
                < 17 {
                Some(Feature::Marsh)
            } else if temp > 15 && moist > 5 && is_flat_fertile {
                Some(Feature::Jungle)
            } else if band != ElevationBand::Mountains && moist > 3 && temp > 5 && (base
                == Terrain::Grassland || base == Terrain::Plains || base == Terrain::Tundra) {
                Some(Feature::Forest)
            } else {
                None
            };
            (base, band, FeatureCell(feat))
        };
        assert(t_out == b.0 && band_out == b.1 && feat_out == b.2);
        terrain.set(x, y, t_out);
        elevation_band.set(x, y, band_out);
        feature.set(x, y, feat_out);
        i = i + 1;
    }
    BiomeMaps { terrain, elevation_band, feature }
}

} // verus!
