use rts_game::biome::{classify, ClimateClasses, ElevationBand, Feature, FeatureCell, Terrain};
use rts_game::grid::Grid;
use rts_game::nations::{is_habitable, place};
use rts_game::noise::{cell_random_bits, splitmix64, Perlin3};
use rts_game::sampling::{scatter_points, wrapped_dist_sq};
use rts_game::terrain_mesh::{chunk_jobs, frame_batch, grid_indices, sample_indices, ChunkJob};

fn classes(width: usize, height: usize, temp: u8, moist: u8, band: ElevationBand) -> ClimateClasses {
    ClimateClasses {
        temperature_rank: Grid::filled(width, height, temp),
        moisture_rank: Grid::filled(width, height, moist),
        mountain_band: Grid::filled(width, height, band),
    }
}

#[test]
fn splitmix64_matches_the_reference_sequence() {
    assert_eq!(splitmix64(0), 0xE220_A839_7B1D_CDAF);
    assert_eq!(splitmix64(1), 10451216379200822465);
    assert_eq!(splitmix64(12345), 2454886589211414944);
}

#[test]
fn cell_random_bits_keeps_the_top_53_bits() {
    assert_eq!(cell_random_bits(3, 4, 99), 6353385361908412);
    assert!(cell_random_bits(1000, 2000, 7) < (1u64 << 53));
}

#[test]
fn perlin_permutation_is_a_doubled_shuffle() {
    let p = Perlin3::new(42);
    let perm = p.perm();
    assert_eq!(perm.len(), 512);
    assert_eq!(&perm[..8], &[37, 114, 132, 64, 205, 171, 75, 48]);
    for i in 0..256 {
        assert_eq!(perm[i], perm[i + 256]);
    }
    let mut seen = [false; 256];
    for &v in &perm[..256] {
        assert!(!seen[v as usize]);
        seen[v as usize] = true;
    }
}

#[test]
fn frozen_water_is_ice_and_plain_land_is_forested_grassland() {
    let ocean = Grid::filled(3, 3, true);
    let none = Grid::filled(3, 3, false);
    let maps = classify(3, 3, 1, &ocean, &none, &none, &classes(3, 3, 0, 4, ElevationBand::Flat));
    assert!(maps.terrain.cells.iter().all(|&t| t == Terrain::Ice));
    assert!(maps.feature.cells.iter().all(|&f| f == FeatureCell(None)));

    let maps = classify(3, 3, 1, &none, &none, &none, &classes(3, 3, 10, 4, ElevationBand::Flat));
    assert!(maps.terrain.cells.iter().all(|&t| t == Terrain::Grassland));
    assert!(maps.feature.cells.iter().all(|&f| f == FeatureCell(Some(Feature::Forest))));
    assert!(maps.elevation_band.cells.iter().all(|&b| b == ElevationBand::Flat));
}

#[test]
fn classification_by_climate_ranks() {
    let ocean = Grid::filled(2, 2, false);
    let none = Grid::filled(2, 2, false);
    let cold = classify(2, 2, 9, &ocean, &none, &none, &classes(2, 2, 2, 0, ElevationBand::Hills));
    assert!(cold.terrain.cells.iter().all(|&t| t == Terrain::Snow));
    let tundra = classify(2, 2, 9, &ocean, &none, &none, &classes(2, 2, 8, 0, ElevationBand::Flat));
    assert!(tundra.terrain.cells.iter().all(|&t| t == Terrain::Tundra));
    let steppe = classify(2, 2, 9, &ocean, &none, &none, &classes(2, 2, 10, 0, ElevationBand::Flat));
    assert!(steppe.terrain.cells.iter().all(|&t| t == Terrain::Steppe));
    let plains = classify(2, 2, 9, &ocean, &none, &none, &classes(2, 2, 11, 2, ElevationBand::Flat));
    assert!(plains.terrain.cells.iter().all(|&t| t == Terrain::Plains));
    let savanna = classify(2, 2, 9, &ocean, &none, &none, &classes(2, 2, 12, 2, ElevationBand::Hills));
    assert!(savanna.terrain.cells.iter().all(|&t| t == Terrain::Savanna));
    assert!(savanna.elevation_band.cells.iter().all(|&b| b == ElevationBand::Hills));
    let lake = Grid::filled(2, 2, true);
    let lakes = classify(2, 2, 9, &ocean, &lake, &none, &classes(2, 2, 12, 2, ElevationBand::Hills));
    assert!(lakes.terrain.cells.iter().all(|&t| t == Terrain::Lake));
    assert!(lakes.elevation_band.cells.iter().all(|&b| b == ElevationBand::Flat));
}

#[test]
fn open_ocean_and_coast() {
    let mut ocean = Grid::filled(5, 5, true);
    ocean.set(0, 0, false);
    let none = Grid::filled(5, 5, false);
    let maps = classify(5, 5, 3, &ocean, &none, &none, &classes(5, 5, 4, 4, ElevationBand::Flat));
    assert_eq!(*maps.terrain.get(1, 1), Terrain::Coast);
    assert_eq!(*maps.terrain.get(4, 1), Terrain::Coast);
    assert_eq!(*maps.terrain.get(2, 2), Terrain::Ocean);
    assert_eq!(*maps.terrain.get(2, 4), Terrain::Ocean);
    assert_eq!(*maps.terrain.get(0, 0), Terrain::Tundra);
}

#[test]
fn wrapped_distance_takes_the_short_way_round() {
    assert_eq!(wrapped_dist_sq(0, 0, 9, 0, 10), 1);
    assert_eq!(wrapped_dist_sq(1, 2, 4, 6, 100), 25);
    assert_eq!(wrapped_dist_sq(2, 0, 8, 3, 10), 16 + 9);
    assert_eq!(
        wrapped_dist_sq(0, 0, 1, 3_000_000_000, 5_000_000_000),
        9_000_000_000_000_000_001
    );
    assert_eq!(wrapped_dist_sq(0, 0, 4_000_000_000, 0, 5_000_000_000), 1_000_000_000u128 * 1_000_000_000);
}

#[test]
fn scatter_points_follows_the_seeded_draws() {
    let all = Grid::filled(10, 10, true);
    assert_eq!(scatter_points(10, 10, 3, 7, 0, &all), vec![(9, 8), (1, 8), (5, 2)]);
    let all16 = Grid::filled(16, 16, true);
    assert_eq!(scatter_points(16, 16, 3, 5, 25, &all16), vec![(8, 14), (1, 9), (12, 3)]);
    assert!(scatter_points(10, 10, 0, 7, 0, &all).is_empty());
}

#[test]
fn scatter_points_respects_spacing_and_acceptance() {
    let all = Grid::filled(4, 4, true);
    let spaced = scatter_points(4, 4, 5, 11, 100, &all);
    assert_eq!(spaced.len(), 1);
    let none = Grid::filled(4, 4, false);
    assert!(scatter_points(4, 4, 5, 11, 0, &none).is_empty());
}

#[test]
fn nations_land_only_on_habitable_terrain() {
    assert!(!is_habitable(Terrain::Snow));
    assert!(!is_habitable(Terrain::Coast));
    assert!(is_habitable(Terrain::Desert));
    let ocean: Grid<Terrain> = Grid::new(8, 8);
    assert!(place(&ocean, 3, 1, 1).is_empty());
    let plains = Grid::filled(16, 16, Terrain::Plains);
    assert_eq!(place(&plains, 3, 5, 25), vec![(8, 14), (1, 9), (12, 3)]);
    assert!(place(&plains, 0, 5, 25).is_empty());
}

#[test]
fn mesh_sampling_reaches_the_far_edge() {
    assert_eq!(sample_indices(5, 2), vec![0, 2, 4]);
    assert_eq!(sample_indices(6, 2), vec![0, 2, 4, 5]);
    assert_eq!(sample_indices(4, 1), vec![0, 1, 2, 3]);
    assert_eq!(sample_indices(1, 3), vec![0]);
}

#[test]
fn quads_become_two_triangles_each() {
    assert_eq!(grid_indices(3, 2), vec![0, 3, 1, 1, 3, 4, 1, 4, 2, 2, 4, 5]);
    assert!(grid_indices(1, 5).is_empty());
}

#[test]
fn chunks_overlap_by_one_vertex_and_skip_slivers() {
    assert_eq!(
        chunk_jobs(100, 70),
        vec![
            ChunkJob { col_start: 0, row_start: 0, cols: 65, rows: 65 },
            ChunkJob { col_start: 64, row_start: 0, cols: 36, rows: 65 },
            ChunkJob { col_start: 0, row_start: 64, cols: 65, rows: 6 },
            ChunkJob { col_start: 64, row_start: 64, cols: 36, rows: 6 },
        ]
    );
    assert_eq!(chunk_jobs(65, 64), vec![ChunkJob { col_start: 0, row_start: 0, cols: 65, rows: 64 }]);
}

#[test]
fn terrain_build_takes_eight_chunks_a_frame() {
    assert_eq!(frame_batch(0), (0, true));
    assert_eq!(frame_batch(3), (3, true));
    assert_eq!(frame_batch(8), (8, true));
    assert_eq!(frame_batch(20), (8, false));
}

#[test]
fn the_seed_only_moves_volcanoes_oases_and_reefs() {
    let none = Grid::filled(24, 12, false);
    let mountains = classes(24, 12, 12, 0, ElevationBand::Mountains);
    for (s1, s2) in [(1u64, 2u64), (7, 99), (12345, 54321)] {
        let a = classify(24, 12, s1, &none, &none, &none, &mountains);
        let b = classify(24, 12, s2, &none, &none, &none, &mountains);
        assert_eq!(a.terrain.cells, b.terrain.cells);
        assert_eq!(a.elevation_band.cells, b.elevation_band.cells);
        for (fa, fb) in a.feature.cells.iter().zip(b.feature.cells.iter()) {
            if fa != fb {
                let drawn = |f: &FeatureCell| {
                    matches!(f.0, Some(Feature::Volcano) | Some(Feature::Oasis) | Some(Feature::Reef))
                };
                assert!(drawn(fa) || drawn(fb));
            }
        }
    }
}

#[test]
fn fewer_points_are_a_prefix_of_more() {
    let all = Grid::filled(16, 16, true);
    let three = scatter_points(16, 16, 3, 5, 25, &all);
    let six = scatter_points(16, 16, 6, 5, 25, &all);
    assert_eq!(&six[..three.len()], &three[..]);
    assert_eq!(three, vec![(8, 14), (1, 9), (12, 3)]);
}
