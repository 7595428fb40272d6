//! Colors for map rendering: the flat per-terrain and per-feature palettes,
//! the legend built from them, and the nation markers drawn over a map.
use crate::biome::{Feature, Terrain};
use crate::elevation::wrap_x;
use crate::grid::Grid;
use crate::rgb_image::{
    paint_pixel, pixel_start, put_rgb, rgb_buffer, rgb_dimensions, rgb_from_raw, rgb_into_raw,
    rgb_size, RgbCanvas,
};
use vstd::arithmetic::div_mod::lemma_fundamental_div_mod_converse;
use vstd::prelude::*;

verus! {

/// The flat per-`Terrain` color, with no shading layered on.
pub open spec fn spec_terrain_color(t: Terrain) -> Seq<u8> {
    match t {
        Terrain::Ocean => seq![20u8, 60u8, 130u8],
        Terrain::Coast => seq![70u8, 130u8, 190u8],
        Terrain::Ice => seq![210u8, 230u8, 240u8],
        Terrain::Lake => seq![60u8, 120u8, 190u8],
        Terrain::Grassland => seq![90u8, 150u8, 60u8],
        Terrain::Plains => seq![190u8, 175u8, 90u8],
        Terrain::Savanna => seq![175u8, 165u8, 75u8],
        Terrain::Steppe => seq![195u8, 185u8, 140u8],
        Terrain::Desert => seq![225u8, 200u8, 130u8],
        Terrain::Tundra => seq![150u8, 160u8, 140u8],
        Terrain::Snow => seq![240u8, 240u8, 245u8],
    }
}

pub open spec fn spec_feature_color(f: Feature) -> Seq<u8> {
    match f {
        Feature::Forest => seq![30u8, 90u8, 35u8],
        Feature::Jungle => seq![15u8, 100u8, 40u8],
        Feature::Marsh => seq![70u8, 100u8, 60u8],
        Feature::Volcano => seq![180u8, 40u8, 20u8],
        Feature::Oasis => seq![50u8, 180u8, 160u8],
        Feature::Floodplains => seq![140u8, 160u8, 80u8],
        Feature::Reef => seq![230u8, 170u8, 140u8],
    }
}

pub open spec fn spec_river_color() -> Seq<u8> {
    seq![50u8, 110u8, 200u8]
}

/// The legend rows, in display order: every terrain, every feature, then
/// rivers and nation markers.
pub open spec fn legend_rows() -> Seq<(Seq<char>, Seq<u8>)> {
    seq![
        ("Ocean"@, spec_terrain_color(Terrain::Ocean)),
        ("Coast"@, spec_terrain_color(Terrain::Coast)),
        ("Ice"@, spec_terrain_color(Terrain::Ice)),
        ("Lake"@, spec_terrain_color(Terrain::Lake)),
        ("Grassland"@, spec_terrain_color(Terrain::Grassland)),
        ("Plains"@, spec_terrain_color(Terrain::Plains)),
        ("Savanna"@, spec_terrain_color(Terrain::Savanna)),
        ("Steppe"@, spec_terrain_color(Terrain::Steppe)),
        ("Desert"@, spec_terrain_color(Terrain::Desert)),
        ("Tundra"@, spec_terrain_color(Terrain::Tundra)),
        ("Snow"@, spec_terrain_color(Terrain::Snow)),
        ("Forest"@, spec_feature_color(Feature::Forest)),
        ("Jungle"@, spec_feature_color(Feature::Jungle)),
        ("Marsh"@, spec_feature_color(Feature::Marsh)),
        ("Floodplains"@, spec_feature_color(Feature::Floodplains)),
        ("Reef"@, spec_feature_color(Feature::Reef)),
        ("Volcano"@, spec_feature_color(Feature::Volcano)),
        ("Oasis"@, spec_feature_color(Feature::Oasis)),
        ("River"@, spec_river_color()),
        ("Nation"@, seq![255u8, 255u8, 255u8]),
    ]
}

pub const RIVER_COLOR: [u8; 3] = [50, 110, 200];

/// Which broad surface a cell reads as, for texturing purposes.
#[derive(Clone, Copy, Debug, PartialEq, Eq, Structural)]
pub enum SurfaceClass {
    Water,
    Sand,
    Rock,
    Land,
}

/// Flat per-`Terrain` color, with none of the biome map's baked-in shading
/// (elevation-band darkening, feature/river blending, ocean depth tint).
pub fn terrain_color(terrain: Terrain) -> (r: [u8; 3])
    ensures
        r@ == spec_terrain_color(terrain),
{
    let r: [u8; 3] = match terrain {
        Terrain::Ocean => [20, 60, 130],
        Terrain::Coast => [70, 130, 190],
        Terrain::Ice => [210, 230, 240],
        Terrain::Lake => [60, 120, 190],
        Terrain::Grassland => [90, 150, 60],
        Terrain::Plains => [190, 175, 90],
        Terrain::Savanna => [175, 165, 75],
        Terrain::Steppe => [195, 185, 140],
        Terrain::Desert => [225, 200, 130],
        Terrain::Tundra => [150, 160, 140],
        Terrain::Snow => [240, 240, 245],
    };
    assert(r@ =~= spec_terrain_color(terrain));
    r
}

pub fn feature_color(feature: Feature) -> (r: [u8; 3])
    ensures
        r@ == spec_feature_color(feature),
{
    let r: [u8; 3] = match feature {
        Feature::Forest => [30, 90, 35],
        Feature::Jungle => [15, 100, 40],
        Feature::Marsh => [70, 100, 60],
        Feature::Volcano => [180, 40, 20],
        Feature::Oasis => [50, 180, 160],
        Feature::Floodplains => [140, 160, 80],
        Feature::Reef => [230, 170, 140],
    };
    assert(r@ =~= spec_feature_color(feature));
    r
}

/// Name + swatch color for everything the biome map can draw, in display
/// order, so a UI can render a color key without duplicating the palette.
pub fn legend() -> (r: Vec<(&'static str, [u8; 3])>)
    ensures
        r@.len() == legend_rows().len(),
        forall|i: int|
            0 <= i < r@.len() ==> (#[trigger] r@[i]).0@ == legend_rows()[i].0 && r@[i].1@
                == legend_rows()[i].1,
{
    let mut r: Vec<(&'static str, [u8; 3])> = Vec::new();
    r.push(("Ocean", terrain_color(Terrain::Ocean)));
    r.push(("Coast", terrain_color(Terrain::Coast)));
    r.push(("Ice", terrain_color(Terrain::Ice)));
    r.push(("Lake", terrain_color(Terrain::Lake)));
    r.push(("Grassland", terrain_color(Terrain::Grassland)));
    r.push(("Plains", terrain_color(Terrain::Plains)));
    r.push(("Savanna", terrain_color(Terrain::Savanna)));
    r.push(("Steppe", terrain_color(Terrain::Steppe)));
    r.push(("Desert", terrain_color(Terrain::Desert)));
    r.push(("Tundra", terrain_color(Terrain::Tundra)));
    r.push(("Snow", terrain_color(Terrain::Snow)));
    r.push(("Forest", feature_color(Feature::Forest)));
    r.push(("Jungle", feature_color(Feature::Jungle)));
    r.push(("Marsh", feature_color(Feature::Marsh)));
    r.push(("Floodplains", feature_color(Feature::Floodplains)));
    r.push(("Reef", feature_color(Feature::Reef)));
    r.push(("Volcano", feature_color(Feature::Volcano)));
    r.push(("Oasis", feature_color(Feature::Oasis)));
    let river = RIVER_COLOR;
    assert(river@ =~= spec_river_color());
    r.push(("River", river));
    let nation: [u8; 3] = [255, 255, 255];
    assert(nation@ =~= seq![255u8, 255u8, 255u8]);
    r.push(("Nation", nation));
    r
}

/// Offset `k` (of 49) of a nation marker, row by row: `(dx, dy)`, each in
/// `-3..=3`.
pub open spec fn stamp_offset(k: int) -> (int, int) {
    (k % 7 - 3, k / 7 - 3)
}

/// Marker color at offset `(dx, dy)`: a white disk inside a black ring.
pub open spec fn stamp_color(dx: int, dy: int) -> Seq<u8> {
    if dx * dx + dy * dy > 4 {
        seq![10u8, 10u8, 10u8]
    } else {
        seq![255u8, 255u8, 255u8]
    }
}

/// The pixel that offset `(dx, dy)` from `(x, y)` lands on in a `w` by `h`
/// image: wrapped around in x, clamped to the edge rows in y.
pub open spec fn stamp_target(w: int, h: int, x: int, y: int, dx: int, dy: int) -> (u32, u32) {
    let row = if y + dy < 0 {
        0
    } else if y + dy > h - 1 {
        h - 1
    } else {
        y + dy
    };
    (((x + dx) % w) as u32, row as u32)
}

/// The buffer of a `w` by `h` RGB image after the first `k` offsets of a
/// marker at `(x, y)` are painted (those within distance 3 of the center,
/// later ones over earlier ones).
pub open spec fn stamp_upto(raw: Seq<u8>, w: int, h: int, x: int, y: int, k: int) -> Seq<u8>
    decreases k,
{
    if k <= 0 {
        raw
    } else {
        let prev = stamp_upto(raw, w, h, x, y, k - 1);
        let o = stamp_offset(k - 1);
        if o.0 * o.0 + o.1 * o.1 > 9 {
            prev
        } else {
            let t = stamp_target(w, h, x, y, o.0, o.1);
            paint_pixel(prev, w, t.0 as int, t.1 as int, stamp_color(o.0, o.1))
        }
    }
}

/// The buffer after the markers of the first `n` positions are drawn, in
/// order (a position's coordinates taken as `i32`).
pub open spec fn markers_drawn(
    raw: Seq<u8>,
    w: int,
    h: int,
    positions: Seq<(usize, usize)>,
    n: int,
) -> Seq<u8>
    decreases n,
{
    if n <= 0 {
        raw
    } else {
        let p = positions[n - 1];
        stamp_upto(
            markers_drawn(raw, w, h, positions, n - 1),
            w,
            h,
            (p.0 as i32) as int,
            (p.1 as i32) as int,
            49,
        )
    }
}

/// Paints the nation markers on `image`.
fn stamp_markers(image: &mut RgbCanvas, positions: &[(usize, usize)])
    requires
        0 < rgb_size(*old(image)).0 <= i32::MAX,
        0 < rgb_size(*old(image)).1 <= i32::MAX,
        3 * rgb_size(*old(image)).0 * rgb_size(*old(image)).1 <= rgb_buffer(*old(image)).len(),
        forall|i: int|
            0 <= i < positions@.len() ==> i32::MIN + 3 <= (#[trigger] positions@[i].0 as i32) <= i32::MAX
                - 3 && i32::MIN + 3 <= (positions@[i].1 as i32) <= i32::MAX - 3,
    ensures
        rgb_size(*final(image)) == rgb_size(*old(image)),
        rgb_buffer(*final(image)) == markers_drawn(
            rgb_buffer(*old(image)),
            rgb_size(*old(image)).0 as int,
            rgb_size(*old(image)).1 as int,
            positions@,
            positions@.len() as int,
        ),
{
    let (width, height) = rgb_dimensions(image);
    let ghost w = width as int;
    let ghost h = height as int;
    let ghost px0 = rgb_buffer(*image);
    let ghost len0 = px0.len();
    let ghost size0 = rgb_size(*image);
    let hi = height as i32;
    let mut i: usize = 0;
    while i < positions.len()
        invariant
            size0 == rgb_size(*old(image)),
            px0 == rgb_buffer(*old(image)),
            len0 == px0.len(),
            3 * w * h <= len0,
            (width, height) == size0,
            w == width,
            h == height,
            hi == height,
            0 < width <= i32::MAX,
            0 < height <= i32::MAX,
            forall|i2: int|
                0 <= i2 < positions@.len() ==> i32::MIN + 3 <= (#[trigger] positions@[i2].0 as i32)
                    <= i32::MAX - 3 && i32::MIN + 3 <= (positions@[i2].1 as i32) <= i32::MAX - 3,
            i <= positions@.len(),
            rgb_size(*image) == size0,
            rgb_buffer(*image) == markers_drawn(px0, w, h, positions@, i as int),
            rgb_buffer(*image).len() == len0,
        decreases positions@.len() - i,
    {
        let (x, y) = positions[i];
        let xi = x as i32;
        let yi = y as i32;
        let ghost start = rgb_buffer(*image);
        let mut dy: i32 = -3;
        while dy <= 3
            invariant
                size0 == rgb_size(*old(image)),
                (width, height) == size0,
                w == width,
                h == height,
                hi == height,
                0 < width <= i32::MAX,
                0 < height <= i32::MAX,
                i32::MIN + 3 <= xi <= i32::MAX - 3,
                i32::MIN + 3 <= yi <= i32::MAX - 3,
                -3 <= dy <= 4,
                rgb_size(*image) == size0,
                3 * w * h <= len0,
                rgb_buffer(*image).len() == len0,
                rgb_buffer(*image) == stamp_upto(start, w, h, xi as int, yi as int, (dy + 3) * 7),
            decreases 4 - dy,
        {
            let mut dx: i32 = -3;
            while dx <= 3
                invariant
                    size0 == rgb_size(*old(image)),
                    (width, height) == size0,
                    w == width,
                    h == height,
                    hi == height,
                    0 < width <= i32::MAX,
                    0 < height <= i32::MAX,
                    i32::MIN + 3 <= xi <= i32::MAX - 3,
                    i32::MIN + 3 <= yi <= i32::MAX - 3,
                    -3 <= dy <= 3,
                    -3 <= dx <= 4,
                    rgb_size(*image) == size0,
                    3 * w * h <= len0,
                    rgb_buffer(*image).len() == len0,
                    rgb_buffer(*image) == stamp_upto(
                        start,
                        w,
                        h,
                        xi as int,
                        yi as int,
                        (dy + 3) * 7 + (dx + 3),
                    ),
                decreases 4 - dx,
            {
                let ghost k = (dy + 3) * 7 + (dx + 3);
                proof {
                    lemma_fundamental_div_mod_converse(k, 7, (dy + 3) as int, (dx + 3) as int);
                    assert(stamp_offset(k) == (dx as int, dy as int));
                }
                assert(0 <= dx * dx <= 9 && 0 <= dy * dy <= 9) by (nonlinear_arith)
                    requires
                        -3 <= dx <= 3,
                        -3 <= dy <= 3,
                ;
                let dist_sq = dx * dx + dy * dy;
                if dist_sq <= 9 {
                    let px = wrap_x((xi + dx) as i64, width as usize);
                    let v = yi + dy;
                    let py: i32 = if v < 0 {
                        0
                    } else if v > hi - 1 {
                        hi - 1
                    } else {
                        v
                    };
                    let color: [u8; 3] = if dist_sq > 4 {
                        [10, 10, 10]
                    } else {
                        [255, 255, 255]
                    };
                    proof {
                        assert(color@ == stamp_color(dx as int, dy as int));
                        assert((px as u32, py as u32) == stamp_target(w, h, xi as int, yi as int, dx as int, dy as int));
                        assert(pixel_start(w, px as int, py as int) + 3 <= 3 * w * h) by (nonlinear_arith)
                            requires
                                0 <= px < w,
                                0 <= py < h,
                        ;
                    }
                    put_rgb(image, px as u32, py as u32, color);
                }
                dx = dx + 1;
            }
            dy = dy + 1;
        }
        i = i + 1;
    }
}

/// Draws a small white-disk-with-black-ring marker at each nation position
/// on top of an already rendered `width` by `height` map, given as its raw
/// row-major RGB bytes, wrapping around the map's east-west seam and
/// clamping at its top and bottom rows. `None` when `raw` is too short for
/// the map.
pub fn draw_nations(width: u32, height: u32, raw: Vec<u8>, positions: &[(usize, usize)]) -> (r:
    Option<Vec<u8>>)
    requires
        0 < width <= i32::MAX,
        0 < height <= i32::MAX,
        forall|i: int|
            0 <= i < positions@.len() ==> i32::MIN + 3 <= (#[trigger] positions@[i].0 as i32) <= i32::MAX
                - 3 && i32::MIN + 3 <= (positions@[i].1 as i32) <= i32::MAX - 3,
    ensures
        r is Some <==> 3 * width * height <= raw@.len(),
        r matches Some(out) ==> out@ == markers_drawn(
            raw@,
            width as int,
            height as int,
            positions@,
            positions@.len() as int,
        ),
{
    match rgb_from_raw(width, height, raw) {
        None => None,
        Some(mut canvas) => {
            stamp_markers(&mut canvas, positions);
            let out = rgb_into_raw(canvas);
            Some(out)
        },
    }
}

/// Some cell of the 3x3 block around `(col, row)`, other than the center
/// offset, is ocean or lake (the block wraps east-west and is clamped at
/// the poles, so near a pole the center cell itself can be reached).
pub open spec fn spec_near_water(is_ocean: Grid<bool>, is_lake: Grid<bool>, col: int, row: int) -> bool {
    exists|dx: int, dy: int|
        -1 <= dx <= 1 && -1 <= dy <= 1 && !(dx == 0 && dy == 0) && (#[trigger] is_ocean.at(
            col + dx,
            row + dy,
        ) || is_lake.at(col + dx, row + dy))
}

/// Whether any of a land cell's 8 neighbors is ocean or lake: the beach
/// blend needs actual adjacency, not just "close to sea level".
pub fn near_water(is_ocean: &Grid<bool>, is_lake: &Grid<bool>, col: usize, row: usize) -> (r: bool)
    requires
        is_ocean.usable(),
        is_lake.usable(),
        is_lake.width == is_ocean.width,
        is_lake.height == is_ocean.height,
        col < is_ocean.width,
        row < is_ocean.height,
    ensures
        r == spec_near_water(*is_ocean, *is_lake, col as int, row as int),
{
    let c = col as i64;
    let r = row as i64;
    let mut dy: i64 = -1;
    while dy <= 1
        invariant
            is_ocean.usable(),
            is_lake.usable(),
            c == col,
            r == row,
            col < is_ocean.width,
            row < is_ocean.height,
            -1 <= dy <= 2,
            forall|dx2: int, dy2: int|
                -1 <= dx2 <= 1 && -1 <= dy2 < dy && !(dx2 == 0 && dy2 == 0) ==> !(#[trigger] is_ocean.at(
                    c + dx2,
                    r + dy2,
                ) || is_lake.at(c + dx2, r + dy2)),
        decreases 2 - dy,
    {
        let mut dx: i64 = -1;
        while dx <= 1
            invariant
                is_ocean.usable(),
                is_lake.usable(),
                c == col,
                r == row,
                col < is_ocean.width,
                row < is_ocean.height,
                -1 <= dy <= 1,
                -1 <= dx <= 2,
                forall|dx2: int, dy2: int|
                    -1 <= dx2 <= 1 && -1 <= dy2 < dy && !(dx2 == 0 && dy2 == 0) ==> !(
                    #[trigger] is_ocean.at(c + dx2, r + dy2) || is_lake.at(c + dx2, r + dy2)),
                forall|dx2: int|
                    -1 <= dx2 < dx && !(dx2 == 0 && dy == 0) ==> !(#[trigger] is_ocean.at(
                        c + dx2,
                        r + dy,
                    ) || is_lake.at(c + dx2, r + dy)),
            decreases 2 - dx,
        {
            if !(dx == 0 && dy == 0) {
                let wet_ocean = *is_ocean.get(c + dx, r + dy);
                let wet_lake = *is_lake.get(c + dx, r + dy);
                if wet_ocean || wet_lake {
                    assert(is_ocean.at(c + dx, r + dy) || is_lake.at(c + dx, r + dy));
                    return true;
                }
                assert(!(is_ocean.at(c + dx, r + dy) || is_lake.at(c + dx, r + dy)));
            }
            assert forall|dx2: int| -1 <= dx2 < dx + 1 && !(dx2 == 0 && dy == 0) implies !(
            #[trigger] is_ocean.at(c + dx2, r + dy) || is_lake.at(c + dx2, r + dy)) by {
                if dx2 == dx {
                    assert(!(is_ocean.at(c + dx, r + dy) || is_lake.at(c + dx, r + dy)));
                }
            }
            dx = dx + 1;
        }
        assert forall|dx2: int, dy2: int|
            -1 <= dx2 <= 1 && -1 <= dy2 < dy + 1 && !(dx2 == 0 && dy2 == 0) implies !(
            #[trigger] is_ocean.at(c + dx2, r + dy2) || is_lake.at(c + dx2, r + dy2)) by {
            if dy2 == dy {
                assert(!(is_ocean.at(c + dx2, r + dy) || is_lake.at(c + dx2, r + dy)));
            }
        }
        dy = dy + 1;
    }
    false
}

/// The pixels of a `width` by `height` RGB buffer repacked as RGBA with
/// full opacity, the layout a GPU texture takes.
pub fn rgba_from_rgb(width: u32, height: u32, raw: &Vec<u8>) -> (r: Vec<u8>)
    requires
        3 * width * height <= raw@.len(),
        4 * width * height <= usize::MAX,
    ensures
        r@.len() == 4 * width * height,
        forall|p: int, ch: int|
            0 <= p < width * height && 0 <= ch < 3 ==> #[trigger] r@[4 * p + ch] == raw@[3 * p + ch],
        forall|p: int| 0 <= p < width * height ==> #[trigger] r@[4 * p + 3] == 255,
{
    proof {
        assert(3 * (width * height) == 3 * width * height && 4 * (width * height) == 4 * width
            * height && width * height <= 4 * width * height) by (nonlinear_arith);
    }
    let n = (width as usize) * (height as usize);
    let mut out: Vec<u8> = Vec::with_capacity(4 * n);
    let mut p: usize = 0;
    while p < n
        invariant
            n == width * height,
            3 * n <= raw@.len(),
            4 * n <= usize::MAX,
            p <= n,
            out@.len() == 4 * p,
            forall|q: int, ch: int|
                0 <= q < p && 0 <= ch < 3 ==> #[trigger] out@[4 * q + ch] == raw@[3 * q + ch],
            forall|q: int| 0 <= q < p ==> #[trigger] out@[4 * q + 3] == 255,
        decreases n - p,
    {
        let ghost before = out@;
        assert(3 * p + 2 < 3 * n && 4 * p + 4 <= 4 * n);
        out.push(raw[3 * p]);
        out.push(raw[3 * p + 1]);
        out.push(raw[3 * p + 2]);
        out.push(255);
        proof {
            assert forall|q: int, ch: int| 0 <= q < p + 1 && 0 <= ch < 3 implies #[trigger] out@[4
                * q + ch] == raw@[3 * q + ch] by {
                if q < p {
                    assert(out@[4 * q + ch] == before[4 * q + ch]);
                }
            }
            assert forall|q: int| 0 <= q < p + 1 implies #[trigger] out@[4 * q + 3] == 255 by {
                if q < p {
                    assert(out@[4 * q + 3] == before[4 * q + 3]);
                }
            }
        }
        p = p + 1;
    }
    out
}

} // verus!
