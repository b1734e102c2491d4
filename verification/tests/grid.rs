use lcsdiff::grid::Grid;

#[test]
fn new_grid_holds_the_default_everywhere() {
    let grid: Grid<u8> = Grid::new(4, 3, 7);
    assert_eq!(grid.width(), 4);
    assert_eq!(grid.height(), 3);
    for row in 0..3u32 {
        for col in 0..4u32 {
            assert_eq!(*grid.get(col, row), 7);
        }
    }
}

#[test]
fn new_grid_clones_a_default_that_is_not_copy() {
    let grid: Grid<String> = Grid::new(2, 2, String::from("cell"));
    assert_eq!(grid.get(1, 1), "cell");
    assert_eq!(grid.get(0, 0), "cell");
}

#[test]
fn grid_without_cells_can_be_made() {
    let grid: Grid<u8> = Grid::new(0, 5, 1);
    assert_eq!(grid.width(), 0);
    assert_eq!(grid.height(), 5);
}

#[test]
fn set_changes_one_cell_only() {
    let mut grid: Grid<u32> = Grid::new(3, 2, 0);
    grid.set(2, 1, 9);
    for row in 0..2u32 {
        for col in 0..3u32 {
            let expected = if col == 2 && row == 1 { 9 } else { 0 };
            assert_eq!(*grid.get(col, row), expected);
        }
    }
}

#[test]
fn cells_are_addressed_by_column_then_row() {
    let mut grid: Grid<u32> = Grid::new(3, 2, 0);
    for row in 0..2u32 {
        for col in 0..3u32 {
            grid.set(col, row, 10 * row + col);
        }
    }
    assert_eq!(*grid.get(0, 0), 0);
    assert_eq!(*grid.get(2, 0), 2);
    assert_eq!(*grid.get(0, 1), 10);
    assert_eq!(*grid.get(1, 1), 11);
    assert_eq!(*grid.get(2, 1), 12);
}

#[test]
fn index_reads_what_get_reads() {
    let mut grid: Grid<char> = Grid::new(2, 3, '.');
    grid.set(1, 2, 'x');
    assert_eq!(grid[(1, 2)], 'x');
    assert_eq!(grid[(0, 2)], '.');
    assert_eq!(grid[(1, 0)], '.');
}
