use rts_game::flood::flood;
use rts_game::grid::Grid;
use rts_game::strait::{distinct_cells, farthest_from, is_connected, plan_split, strait_cut};

#[test]
fn flood_labels_distance_and_order_on_a_ring() {
    let inside = Grid::filled(5, 1, true);
    let f = flood(&inside, &vec![0]);
    assert_eq!(f.order, vec![0, 4, 1, 3, 2]);
    assert_eq!(f.dist, vec![0, 1, 2, 2, 1]);
    assert_eq!(f.root, vec![0, 0, 0, 0, 0]);
    assert!(f.reached.iter().all(|&r| r));
}

#[test]
fn flood_from_two_seeds_splits_between_them() {
    let inside = Grid::filled(6, 1, true);
    let f = flood(&inside, &vec![0, 3]);
    assert_eq!(f.dist, vec![0, 1, 1, 0, 1, 1]);
    assert_eq!(f.root[1], 0);
    assert_eq!(f.root[2], 3);
    assert_eq!(f.root[4], 3);
    assert_eq!(f.root[5], 0);
}

#[test]
fn flood_stays_inside_the_mask() {
    let mut inside = Grid::filled(5, 1, true);
    inside.set(2, 0, false);
    let f = flood(&inside, &vec![1]);
    assert_eq!(f.order, vec![1, 0, 4, 3]);
    assert!(!f.reached[2]);
    assert_eq!(f.dist[2], 0);
    assert_eq!(f.dist[3], 3);
}

#[test]
fn farthest_from_is_the_last_cell_reached() {
    let inside = Grid::filled(5, 1, true);
    assert_eq!(farthest_from(&inside, 0), 2);
    let mut line = Grid::filled(8, 1, false);
    for x in 0..6 {
        line.set(x, 0, true);
    }
    assert_eq!(farthest_from(&line, 0), 5);
    assert_eq!(farthest_from(&line, 5), 0);
    assert_eq!(farthest_from(&line, 2), 5);
}

#[test]
fn connectivity_follows_eight_neighbors_and_the_seam() {
    assert!(is_connected(5, 1, &vec![(0, 0), (4, 0)]));
    assert!(!is_connected(5, 1, &vec![(0, 0), (2, 0)]));
    assert!(is_connected(5, 3, &vec![(0, 0), (1, 1), (2, 2)]));
    assert!(!is_connected(5, 3, &vec![(0, 0), (2, 2)]));
    assert!(is_connected(5, 3, &vec![]));
    assert!(is_connected(5, 3, &vec![(3, 1)]));
}

#[test]
fn split_of_a_strip_cuts_it_in_the_middle() {
    let component: Vec<(usize, usize)> = (0..6).map(|x| (x, 0)).collect();
    let plan = plan_split(8, 1, &component, 0).expect("a strip of six cells splits");
    assert_eq!(plan.ends, (5, 0));
    assert_eq!(plan.side, vec![true, true, true, false, false, false]);
    assert_eq!(plan.ring, vec![2, 1, 0, 0, 1, 2]);
    assert_eq!(plan.cells, component);
    let cut = strait_cut(8, 1, &plan, &vec![1; 6]);
    assert_eq!(cut, vec![(1, 0), (2, 0), (3, 0), (4, 0)]);
    let narrow = strait_cut(8, 1, &plan, &vec![0; 6]);
    assert_eq!(narrow, vec![(2, 0), (3, 0)]);
}

#[test]
fn split_start_cell_follows_jitter() {
    let component: Vec<(usize, usize)> = (0..6).map(|x| (x, 0)).collect();
    let plan = plan_split(8, 1, &component, 2).expect("splits");
    assert_eq!(plan.ends, (5, 0));
    let plan = plan_split(8, 1, &component, 5).expect("splits");
    assert_eq!(plan.ends, (0, 5));
    assert_eq!(plan.side, vec![false, false, false, true, true, true]);
}

#[test]
fn no_split_for_a_single_cell() {
    assert!(plan_split(4, 4, &vec![(1, 1)], 7).is_none());
    assert!(plan_split(4, 4, &vec![], 7).is_none());
}

#[test]
fn strait_leaves_no_two_touching_cells_on_different_sides() {
    let mut component = Vec::new();
    for y in 0..5 {
        for x in 0..7 {
            if !(y >= 1 && y <= 3 && x >= 2 && x <= 4) {
                component.push((x, y));
            }
        }
    }
    assert!(is_connected(9, 5, &component));
    let plan = plan_split(9, 5, &component, 3).expect("a ring splits");
    let limits = vec![0; component.len()];
    let cut = strait_cut(9, 5, &plan, &limits);
    assert!(!cut.is_empty());
    for (i, &(x1, y1)) in component.iter().enumerate() {
        for (j, &(x2, y2)) in component.iter().enumerate() {
            let dx = (x1 as i64 - x2 as i64).rem_euclid(9);
            let touching = (dx <= 1 || dx == 8) && (y1 as i64 - y2 as i64).abs() <= 1 && i != j;
            if touching && !cut.contains(&(x1, y1)) && !cut.contains(&(x2, y2)) {
                assert_eq!(plan.side[i], plan.side[j]);
            }
        }
    }
}

#[test]
fn a_cut_strip_stands_in_two_pieces() {
    let component: Vec<(usize, usize)> = (0..6).map(|x| (x, 0)).collect();
    let plan = plan_split(8, 1, &component, 0).expect("a strip of six cells splits");
    let cut = strait_cut(8, 1, &plan, &vec![0; 6]);
    let standing: Vec<(usize, usize)> = component.iter().copied().filter(|c| !cut.contains(c)).collect();
    assert_eq!(standing, vec![(0, 0), (1, 0), (4, 0), (5, 0)]);
    assert!(!is_connected(8, 1, &standing));
    assert!(is_connected(8, 1, &vec![(0, 0), (1, 0)]));
    assert!(is_connected(8, 1, &vec![(4, 0), (5, 0)]));
}

#[test]
fn both_ends_always_stand() {
    let component = vec![(0, 0), (1, 0)];
    let plan = plan_split(8, 1, &component, 0).expect("two cells split");
    assert_eq!(plan.ring, vec![0, 0]);
    assert!(strait_cut(8, 1, &plan, &vec![3, 3]).is_empty());
    let strip: Vec<(usize, usize)> = (0..6).map(|x| (x, 0)).collect();
    let plan = plan_split(8, 1, &strip, 0).expect("splits");
    assert_eq!(strait_cut(8, 1, &plan, &vec![9; 6]), vec![(1, 0), (2, 0), (3, 0), (4, 0)]);
}

#[test]
fn land_cut_off_from_its_end_is_cleared_too() {
    let strip: Vec<(usize, usize)> = (0..9).map(|x| (x, 0)).collect();
    let plan = plan_split(12, 1, &strip, 0).expect("splits");
    assert_eq!(plan.ends, (8, 0));
    assert_eq!(plan.ring, vec![3, 2, 1, 0, 0, 1, 2, 3, 4]);
    let limits = vec![0, 0, 0, 0, 0, 0, 5, 0, 0];
    let cut = strait_cut(12, 1, &plan, &limits);
    assert_eq!(cut, vec![(3, 0), (4, 0), (5, 0), (6, 0)]);
}

#[test]
fn a_repeated_cell_counts_once() {
    let listed = vec![(0, 0), (1, 0), (0, 0), (2, 0), (1, 0)];
    assert_eq!(distinct_cells(8, 1, &listed), vec![(0, 0), (1, 0), (2, 0)]);
    assert!(is_connected(8, 1, &listed));
    let plan = plan_split(8, 1, &listed, 0).expect("three cells split");
    assert_eq!(plan.cells, vec![(0, 0), (1, 0), (2, 0)]);
    assert_eq!(plan.ends, (2, 0));
    assert!(plan_split(8, 1, &vec![(3, 0), (3, 0)], 1).is_none());
}
