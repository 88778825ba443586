use sudoku::grid::{Grid, GridError, GridSubsectionType};

fn sample_grid() -> Grid {
    Grid::new(vec![
        2, 0, 0, 0, 0, 0, 0, 6, 1, // row 0
        0, 0, 0, 0, 0, 0, 0, 0, 0, // row 1
        0, 0, 3, 0, 1, 0, 0, 0, 0, // row 2
        0, 0, 0, 0, 0, 0, 0, 0, 0, // row 3
        0, 0, 0, 0, 0, 0, 0, 0, 0, // row 4
        0, 0, 0, 0, 0, 0, 0, 0, 0, // row 5
        0, 0, 0, 0, 0, 0, 0, 0, 0, // row 6
        0, 0, 0, 0, 0, 0, 0, 0, 8, // row 7
        1, 0, 0, 0, 0, 0, 0, 7, 9, // row 8
    ])
    .unwrap()
}

fn corner_grid() -> Grid {
    Grid::new(vec![
        2, 0, 0, 0, 0, 0, 0, 0, 1, // row 0
        0, 0, 0, 0, 0, 0, 0, 0, 0, // row 1
        0, 0, 0, 0, 1, 0, 0, 0, 0, // row 2
        0, 0, 0, 0, 0, 0, 0, 0, 0, // row 3
        0, 0, 0, 0, 0, 0, 0, 0, 0, // row 4
        0, 0, 0, 0, 0, 0, 0, 0, 0, // row 5
        0, 0, 0, 0, 0, 0, 0, 0, 0, // row 6
        0, 0, 0, 0, 0, 0, 0, 0, 0, // row 7
        1, 0, 0, 0, 0, 0, 0, 0, 9, // row 8
    ])
    .unwrap()
}

#[test]
fn invalid_grid_size() {
    assert_eq!(Grid::new(vec![0]), Err(GridError::InvalidGridSize));
    assert_eq!(Grid::new(vec![0, 0, 0]), Err(GridError::InvalidGridSize));
    assert_eq!(
        Grid::new(vec![
            0, 0, 0, // row 0
            0, 0, 0, // row 1
        ]),
        Err(GridError::InvalidGridSize)
    );
    assert_eq!(
        Grid::new(vec![
            0, 0, 0, // row 0
            0, 0, 0, // row 1
            0, 0, 0, // row 3
        ]),
        Err(GridError::InvalidGridSize)
    );
}

#[test]
fn get_cell() {
    let grid = Grid::new(vec![
        2, 0, 0, 0, 0, 0, 0, 0, 1, // row 0
        0, 0, 0, 0, 0, 0, 0, 0, 0, // row 1
        0, 0, 3, 0, 1, 0, 0, 0, 0, // row 2
        0, 0, 0, 0, 0, 0, 0, 0, 0, // row 3
        0, 0, 0, 0, 0, 0, 0, 0, 0, // row 4
        0, 0, 0, 0, 0, 0, 0, 0, 0, // row 5
        0, 0, 0, 0, 0, 0, 0, 0, 0, // row 6
        0, 0, 0, 0, 0, 0, 0, 0, 0, // row 7
        1, 0, 0, 0, 0, 0, 0, 0, 9, // row 8
    ])
    .unwrap();
    assert_eq!(grid.get_cell((10, 0)), Err(GridError::CellOutOfBounds));
    assert_eq!(grid.get_cell((0, 10)), Err(GridError::CellOutOfBounds));
    assert_eq!(grid.get_cell((0, 0)), Ok(2));
    assert_eq!(grid.get_cell((8, 0)), Ok(1));
    assert_eq!(grid.get_cell((8, 8)), Ok(9));
}

#[test]
fn set_cell() {
    let mut grid = corner_grid();
    assert_eq!(grid.set_cell((9, 9), 3), Err(GridError::CellOutOfBounds));
    assert_eq!(
        grid.set_cell((0, 0), 3),
        Err(GridError::ReadonlyCellMutation)
    );
    assert_eq!(grid.set_cell((1, 1), 6), Ok(0));
    assert_eq!(grid.get_cell((1, 1)), Ok(6));
}

#[test]
fn reset() {
    let mut grid = corner_grid();
    grid.set_cell((1, 1), 6).unwrap();
    assert_eq!(grid.get_cell((1, 1)), Ok(6));
    grid.reset();
    assert_eq!(grid.get_cell((0, 0)), Ok(2));
    assert_eq!(grid.get_cell((1, 1)), Ok(0));
}

#[test]
fn get_subsection() {
    let grid = sample_grid();
    assert_eq!(
        grid.get_subsection_values(GridSubsectionType::Row(0)).to_vec(),
        vec![2, 0, 0, 0, 0, 0, 0, 6, 1]
    );
    assert_eq!(
        grid.get_subsection_values(GridSubsectionType::Row(8)).to_vec(),
        vec![1, 0, 0, 0, 0, 0, 0, 7, 9]
    );
    assert_eq!(
        grid.get_subsection_values(GridSubsectionType::Column(0)).to_vec(),
        vec![2, 0, 0, 0, 0, 0, 0, 0, 1]
    );
    assert_eq!(
        grid.get_subsection_values(GridSubsectionType::Column(8)).to_vec(),
        vec![1, 0, 0, 0, 0, 0, 0, 8, 9]
    );
    assert_eq!(
        grid.get_subsection_values(GridSubsectionType::Square(0, 0)).to_vec(),
        vec![2, 0, 0, 0, 0, 0, 0, 0, 3]
    );
    assert_eq!(
        grid.get_subsection_values(GridSubsectionType::Square(2, 2)).to_vec(),
        vec![0, 0, 0, 0, 0, 8, 0, 7, 9]
    );
}

#[test]
fn get_row() {
    let grid = sample_grid();
    let rows = grid.get_row_values();
    assert_eq!(rows[0].to_vec(), vec![2, 0, 0, 0, 0, 0, 0, 6, 1,]);
    assert_eq!(rows[1].to_vec(), vec![0, 0, 0, 0, 0, 0, 0, 0, 0,]);
    assert_eq!(rows[8].to_vec(), vec![1, 0, 0, 0, 0, 0, 0, 7, 9,]);
}

#[test]
fn empty_and_unit_lengths_are_refused() {
    assert_eq!(Grid::new(vec![]), Err(GridError::InvalidGridSize));
    assert_eq!(Grid::new(vec![1]), Err(GridError::InvalidGridSize));
    assert_eq!(Grid::new(vec![0; 36]), Err(GridError::InvalidGridSize));
}

#[test]
fn four_by_four_and_sixteen_by_sixteen_are_accepted() {
    let small = Grid::new(vec![0; 16]).unwrap();
    assert_eq!(small.size(), 4);
    let large = Grid::new(vec![0; 256]).unwrap();
    assert_eq!(large.size(), 16);
    assert_eq!(large.get_cell((15, 15)), Ok(0));
    assert_eq!(large.get_cell((16, 0)), Err(GridError::CellOutOfBounds));
}

#[test]
fn value_above_side_is_refused_at_its_index() {
    let mut cells = vec![0; 16];
    cells[6] = 5;
    cells[9] = 7;
    assert_eq!(Grid::new(cells), Err(GridError::InvalidCellValue(6)));
    let mut ok = vec![0; 16];
    ok[6] = 4;
    assert!(Grid::new(ok).is_ok());
}

#[test]
fn set_cell_refuses_value_above_side() {
    let mut grid = Grid::new(vec![0; 16]).unwrap();
    assert_eq!(grid.set_cell((1, 2), 5), Err(GridError::InvalidCellValue(9)));
    assert_eq!(grid.get_cell((1, 2)), Ok(0));
    assert_eq!(grid.set_cell((1, 2), 4), Ok(0));
    assert_eq!(grid.set_cell((1, 2), 3), Ok(4));
}

#[test]
fn columns_and_squares_in_order() {
    let grid = sample_grid();
    let columns = grid.get_column_values();
    assert_eq!(columns.len(), 9);
    assert_eq!(columns[7].to_vec(), vec![6, 0, 0, 0, 0, 0, 0, 0, 7]);
    assert_eq!(
        columns[7].grid_subsection.subsection_type,
        GridSubsectionType::Column(7)
    );
    let squares = grid.get_square_values();
    assert_eq!(squares.len(), 9);
    assert_eq!(
        squares[2].grid_subsection.subsection_type,
        GridSubsectionType::Square(2, 0)
    );
    assert_eq!(squares[2].to_vec(), vec![0, 6, 1, 0, 0, 0, 0, 0, 0]);
    assert_eq!(
        squares[3].grid_subsection.subsection_type,
        GridSubsectionType::Square(0, 1)
    );
}

#[test]
fn all_subsections_come_as_row_column_square() {
    let grid = sample_grid();
    let all = grid.get_all_subsection_values();
    assert_eq!(all.len(), 27);
    assert_eq!(all[3].grid_subsection.subsection_type, GridSubsectionType::Row(1));
    assert_eq!(all[4].grid_subsection.subsection_type, GridSubsectionType::Column(1));
    assert_eq!(
        all[5].grid_subsection.subsection_type,
        GridSubsectionType::Square(1, 0)
    );
    assert_eq!(
        all[26].grid_subsection.subsection_type,
        GridSubsectionType::Square(2, 2)
    );
    assert_eq!(all[26].to_vec(), vec![0, 0, 0, 0, 0, 8, 0, 7, 9]);
}

#[test]
fn subsections_for_a_cell() {
    let grid = sample_grid();
    let [row, column, square] = grid.get_subsections_vaules_for_cell((7, 8));
    assert_eq!(row.grid_subsection.subsection_type, GridSubsectionType::Row(8));
    assert_eq!(row.to_vec(), vec![1, 0, 0, 0, 0, 0, 0, 7, 9]);
    assert_eq!(column.grid_subsection.subsection_type, GridSubsectionType::Column(7));
    assert_eq!(
        square.grid_subsection.subsection_type,
        GridSubsectionType::Square(2, 2)
    );
    assert_eq!(
        square.grid_subsection.positions(),
        vec![(6, 6), (7, 6), (8, 6), (6, 7), (7, 7), (8, 7), (6, 8), (7, 8), (8, 8)]
    );
}

#[test]
fn text_lists_one_column_per_line() {
    let grid = Grid::new(vec![
        1, 2, 0, 0, // row 0
        0, 0, 0, 0, // row 1
        0, 0, 3, 4, // row 2
        0, 0, 0, 0, // row 3
    ])
    .unwrap();
    assert_eq!(grid.to_string(), "1,_,_,_\n2,_,_,_\n_,_,3,_\n_,_,4,_\n");
}

#[test]
fn text_writes_values_in_decimal() {
    let mut cells = vec![0; 256];
    cells[0] = 16;
    cells[16] = 10;
    let grid = Grid::new(cells).unwrap();
    let text = grid.to_string();
    assert!(text.starts_with("16,10,_,"));
    assert_eq!(text.lines().count(), 16);
}
