use rts_game::grid::Grid;

#[test]
fn get_and_set_wrap_in_x_and_clamp_in_y() {
    let mut g: Grid<i32> = Grid::new(4, 3);
    g.set(5, 1, 7);
    assert_eq!(*g.get(1, 1), 7);
    assert_eq!(*g.get(-3, 1), 7);
    assert_eq!(*g.get(9, 1), 7);
    g.set(0, -2, 9);
    assert_eq!(*g.get(4, 0), 9);
    assert_eq!(*g.get(0, 0), 9);
    assert_eq!(*g.get(0, 10), 0);
    g.set(2, 50, 3);
    assert_eq!(*g.get(2, 2), 3);
}

#[test]
fn new_grid_is_uniform_default() {
    let g: Grid<u8> = Grid::new(3, 2);
    assert_eq!(g.cells.len(), 6);
    assert!(g.cells.iter().all(|&c| c == 0));
    let f: Grid<bool> = Grid::filled(2, 2, true);
    assert!(f.cells.iter().all(|&c| c));
}

#[test]
fn iter_coords_is_row_major() {
    let g: Grid<u8> = Grid::new(2, 2);
    assert_eq!(g.iter_coords(), vec![(0, 0), (1, 0), (0, 1), (1, 1)]);
    let e: Grid<u8> = Grid::new(0, 3);
    assert!(e.iter_coords().is_empty());
}

#[test]
fn neighbors_of_interior_cell_in_offset_order() {
    let g: Grid<u8> = Grid::new(4, 3);
    assert_eq!(
        g.neighbors(1, 1),
        vec![(0, 0), (1, 0), (2, 0), (0, 1), (2, 1), (0, 2), (1, 2), (2, 2)]
    );
}

#[test]
fn neighbors_drop_rows_past_the_poles_and_leave_x_unwrapped() {
    let g: Grid<u8> = Grid::new(4, 3);
    assert_eq!(g.neighbors(0, 0), vec![(-1, 0), (1, 0), (-1, 1), (0, 1), (1, 1)]);
    assert_eq!(g.neighbors(3, 2), vec![(2, 1), (3, 1), (4, 1), (2, 2), (4, 2)]);
    let flat: Grid<u8> = Grid::new(5, 1);
    assert_eq!(flat.neighbors(2, 0), vec![(1, 0), (3, 0)]);
}
