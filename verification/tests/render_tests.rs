use rts_game::biome::{Feature, Terrain};
use rts_game::grid::Grid;
use rts_game::image_export::{
    draw_nations, feature_color, legend, near_water, rgba_from_rgb, terrain_color, RIVER_COLOR,
};

fn pixel(raw: &[u8], width: usize, x: usize, y: usize) -> [u8; 3] {
    let i = 3 * (y * width + x);
    [raw[i], raw[i + 1], raw[i + 2]]
}

#[test]
fn terrain_and_feature_palettes() {
    assert_eq!(terrain_color(Terrain::Ocean), [20, 60, 130]);
    assert_eq!(terrain_color(Terrain::Desert), [225, 200, 130]);
    assert_eq!(terrain_color(Terrain::Snow), [240, 240, 245]);
    assert_eq!(feature_color(Feature::Forest), [30, 90, 35]);
    assert_eq!(feature_color(Feature::Reef), [230, 170, 140]);
    assert_eq!(RIVER_COLOR, [50, 110, 200]);
}

#[test]
fn legend_lists_every_swatch_in_display_order() {
    let rows = legend();
    assert_eq!(rows.len(), 20);
    assert_eq!(rows[0], ("Ocean", [20, 60, 130]));
    assert_eq!(rows[10], ("Snow", [240, 240, 245]));
    assert_eq!(rows[11], ("Forest", [30, 90, 35]));
    assert_eq!(rows[15], ("Reef", [230, 170, 140]));
    assert_eq!(rows[18], ("River", RIVER_COLOR));
    assert_eq!(rows[19], ("Nation", [255, 255, 255]));
    assert_eq!(rows[4].1, terrain_color(Terrain::Grassland));
    assert_eq!(rows[17].1, feature_color(Feature::Oasis));
}

#[test]
fn nation_marker_is_a_white_disk_in_a_black_ring() {
    let raw = vec![0u8; 8 * 8 * 3];
    let out = draw_nations(8, 8, raw, &[(4, 4)]).expect("buffer fits the map");
    assert_eq!(out.len(), 8 * 8 * 3);
    assert_eq!(pixel(&out, 8, 4, 4), [255, 255, 255]);
    assert_eq!(pixel(&out, 8, 5, 5), [255, 255, 255]);
    assert_eq!(pixel(&out, 8, 6, 4), [255, 255, 255]);
    assert_eq!(pixel(&out, 8, 7, 4), [10, 10, 10]);
    assert_eq!(pixel(&out, 8, 6, 6), [10, 10, 10]);
    assert_eq!(pixel(&out, 8, 7, 7), [0, 0, 0]);
    assert_eq!(pixel(&out, 8, 4, 1), [10, 10, 10]);
    assert_eq!(pixel(&out, 8, 0, 0), [0, 0, 0]);
}

#[test]
fn nation_marker_wraps_east_west_and_clamps_at_the_poles() {
    let raw = vec![7u8; 8 * 8 * 3];
    let out = draw_nations(8, 8, raw, &[(0, 0)]).expect("buffer fits the map");
    assert_eq!(pixel(&out, 8, 0, 0), [255, 255, 255]);
    assert_eq!(pixel(&out, 8, 7, 0), [255, 255, 255]);
    assert_eq!(pixel(&out, 8, 5, 0), [10, 10, 10]);
    assert_eq!(pixel(&out, 8, 3, 0), [10, 10, 10]);
    assert_eq!(pixel(&out, 8, 4, 0), [7, 7, 7]);
    assert_eq!(pixel(&out, 8, 0, 3), [10, 10, 10]);
    assert_eq!(pixel(&out, 8, 0, 4), [7, 7, 7]);
}

#[test]
fn bytes_past_the_map_are_handed_back_untouched() {
    let mut raw = vec![0u8; 4 * 4 * 3];
    raw.extend_from_slice(&[1, 2, 3, 4]);
    let out = draw_nations(4, 4, raw, &[(1, 1)]).expect("buffer fits the map");
    assert_eq!(out.len(), 4 * 4 * 3 + 4);
    assert_eq!(&out[48..], &[1, 2, 3, 4]);
    assert_eq!(pixel(&out, 4, 1, 1), [255, 255, 255]);
    assert!(draw_nations(4, 4, vec![0u8; 47], &[(1, 1)]).is_none());
}

#[test]
fn later_markers_paint_over_earlier_ones() {
    let raw = vec![0u8; 10 * 4 * 3];
    let out = draw_nations(10, 4, raw, &[(2, 2), (5, 2)]).expect("fits");
    assert_eq!(pixel(&out, 10, 5, 2), [255, 255, 255]);
    assert_eq!(pixel(&out, 10, 2, 2), [10, 10, 10]);
    assert_eq!(pixel(&out, 10, 3, 2), [255, 255, 255]);
    assert_eq!(pixel(&out, 10, 4, 0), [10, 10, 10]);
    assert_eq!(pixel(&out, 10, 0, 2), [255, 255, 255]);
}

#[test]
fn nation_markers_need_a_full_buffer() {
    assert!(draw_nations(8, 8, vec![0u8; 8 * 8 * 3 - 1], &[(1, 1)]).is_none());
    let out = draw_nations(2, 2, vec![0u8; 12], &[]).expect("fits");
    assert_eq!(out, vec![0u8; 12]);
}

#[test]
fn near_water_looks_at_the_eight_neighbors_with_wrap() {
    let mut ocean = Grid::filled(6, 4, false);
    let mut lake = Grid::filled(6, 4, false);
    ocean.set(5, 1, true);
    assert!(near_water(&ocean, &lake, 0, 2));
    assert!(near_water(&ocean, &lake, 0, 0));
    assert!(!near_water(&ocean, &lake, 2, 2));
    assert!(!near_water(&ocean, &lake, 5, 1));
    lake.set(3, 3, true);
    assert!(near_water(&ocean, &lake, 2, 2));
    // On the last row the clamped offset below lands back on the cell itself.
    assert!(near_water(&ocean, &lake, 3, 3));
    assert!(!near_water(&ocean, &lake, 3, 1));
}


#[test]
fn rgb_pixels_repack_as_opaque_rgba() {
    let rgba = rgba_from_rgb(2, 1, &vec![1, 2, 3, 4, 5, 6, 7]);
    assert_eq!(rgba, vec![1, 2, 3, 255, 4, 5, 6, 255]);
    assert!(rgba_from_rgb(0, 5, &vec![]).is_empty());
}
