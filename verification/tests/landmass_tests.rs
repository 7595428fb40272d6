use rts_game::biome::Terrain;
use rts_game::elevation::{
    correction_passes, correction_step, label_land_components, retain_large, CorrectionStep,
};
use rts_game::grid::Grid;
use rts_game::stats::{count_landmasses, is_land, label_landmasses};

fn land_mask(width: usize, height: usize, cells: &[(i64, i64)]) -> Grid<bool> {
    let mut g = Grid::filled(width, height, false);
    for &(x, y) in cells {
        g.set(x, y, true);
    }
    g
}

#[test]
fn components_join_across_the_x_seam() {
    let land = land_mask(5, 3, &[(0, 1), (4, 1), (2, 1)]);
    let comps = label_land_components(&land);
    assert_eq!(comps, vec![vec![(0, 1), (4, 1)], vec![(2, 1)]]);
}

#[test]
fn components_are_eight_connected_and_cover_all_land() {
    let land = land_mask(6, 4, &[(1, 0), (2, 1), (3, 2), (5, 3), (0, 3)]);
    let comps = label_land_components(&land);
    assert_eq!(comps.len(), 2);
    let total: usize = comps.iter().map(|c| c.len()).sum();
    assert_eq!(total, 5);
    assert_eq!(comps[0].len(), 3);
    assert_eq!(comps[1].len(), 2);
}

#[test]
fn landmass_cells_come_in_depth_first_order() {
    let land = land_mask(3, 2, &[(0, 0), (1, 0), (2, 0), (0, 1)]);
    let comps = label_land_components(&land);
    assert_eq!(comps, vec![vec![(0, 0), (0, 1), (1, 0), (2, 0)]]);
}

#[test]
fn no_land_gives_no_components() {
    let land = land_mask(4, 4, &[]);
    assert!(label_land_components(&land).is_empty());
    let empty: Grid<bool> = Grid::filled(0, 0, false);
    assert!(label_land_components(&empty).is_empty());
}

#[test]
fn retain_large_keeps_order_and_drops_specks() {
    let comps = vec![vec![(0, 0)], vec![(1, 1), (2, 1)], vec![(5, 5)], vec![(3, 3), (3, 4), (4, 4)]];
    let large = retain_large(comps, 2);
    assert_eq!(large, vec![vec![(1, 1), (2, 1)], vec![(3, 3), (3, 4), (4, 4)]]);
}

#[test]
fn correction_step_decides_merge_split_or_done() {
    let large = vec![vec![(0, 0), (1, 0)], vec![(3, 3), (3, 4), (4, 4)], vec![(7, 7), (7, 8), (8, 8)]];
    assert_eq!(correction_step(&large, 3), CorrectionStep::Done);
    assert_eq!(correction_step(&large, 2), CorrectionStep::Merge);
    assert_eq!(correction_step(&large, 5), CorrectionStep::Split(2));
    assert_eq!(correction_step(&Vec::new(), 4), CorrectionStep::Done);
}

#[test]
fn label_landmasses_skips_specks_and_numbers_in_encounter_order() {
    let mut terrain: Grid<Terrain> = Grid::new(5, 3);
    terrain.set(0, 1, Terrain::Plains);
    terrain.set(4, 1, Terrain::Desert);
    terrain.set(2, 1, Terrain::Snow);
    terrain.set(2, 2, Terrain::Lake);
    let (labels, count) = label_landmasses(&terrain, 2);
    assert_eq!(count, 1);
    assert_eq!(*labels.get(0, 1), 0);
    assert_eq!(*labels.get(4, 1), 0);
    assert_eq!(*labels.get(2, 1), -1);
    assert_eq!(*labels.get(2, 2), -1);
    assert_eq!(*labels.get(1, 0), -1);
    assert_eq!(count_landmasses(&terrain, 2), 1);
    assert_eq!(count_landmasses(&terrain, 1), 2);
    let (labels1, count1) = label_landmasses(&terrain, 1);
    assert_eq!(count1, 2);
    assert_eq!(*labels1.get(2, 1), 1);
}

#[test]
fn a_speck_gets_no_id_and_does_not_use_one_up() {
    let mut terrain: Grid<Terrain> = Grid::new(5, 1);
    terrain.set(0, 0, Terrain::Grassland);
    terrain.set(2, 0, Terrain::Plains);
    terrain.set(3, 0, Terrain::Plains);
    let (labels, count) = label_landmasses(&terrain, 2);
    assert_eq!(count, 1);
    let row: Vec<i32> = (0..5).map(|x| *labels.get(x, 0)).collect();
    assert_eq!(row, vec![-1, -1, 0, 0, -1]);
}

#[test]
fn land_across_the_seam_is_one_landmass() {
    let mut terrain: Grid<Terrain> = Grid::new(4, 1);
    terrain.set(0, 0, Terrain::Plains);
    terrain.set(3, 0, Terrain::Plains);
    let (labels, count) = label_landmasses(&terrain, 1);
    assert_eq!(count, 1);
    let row: Vec<i32> = (0..4).map(|x| *labels.get(x, 0)).collect();
    assert_eq!(row, vec![0, -1, -1, 0]);
}

#[test]
fn with_no_minimum_every_landmass_counts_once() {
    let mut terrain: Grid<Terrain> = Grid::new(6, 3);
    terrain.set(0, 0, Terrain::Plains);
    terrain.set(3, 1, Terrain::Desert);
    terrain.set(4, 1, Terrain::Desert);
    terrain.set(1, 2, Terrain::Tundra);
    let (labels, count) = label_landmasses(&terrain, 0);
    assert_eq!(count, 3);
    assert_eq!(count_landmasses(&terrain, 0), count);
    assert_eq!(*labels.get(0, 0), 0);
    assert_eq!(*labels.get(3, 1), 1);
    assert_eq!(*labels.get(4, 1), 1);
    assert_eq!(*labels.get(1, 2), 2);
    let empty: Grid<Terrain> = Grid::new(3, 3);
    assert_eq!(count_landmasses(&empty, 0), 0);
}

#[test]
fn water_and_ice_are_not_land() {
    assert!(!is_land(Terrain::Ocean));
    assert!(!is_land(Terrain::Coast));
    assert!(!is_land(Terrain::Lake));
    assert!(!is_land(Terrain::Ice));
    assert!(is_land(Terrain::Snow));
    assert!(is_land(Terrain::Grassland));
}

#[test]
fn correction_gets_two_passes_per_landmass_and_twenty_more() {
    assert_eq!(correction_passes(0), 22);
    assert_eq!(correction_passes(1), 22);
    assert_eq!(correction_passes(5), 30);
    assert_eq!(correction_passes(u32::MAX), u32::MAX as u64 * 2 + 20);
}
