use sudoku::checker::{Checker, CheckerResult};
use sudoku::grid::{Grid, GridSubsectionType};

fn result(valid: bool, complete: bool) -> CheckerResult {
    CheckerResult { valid, complete }
}

#[test]
fn check_subsections_valid() {
    let mut checker = Checker::new();
    let grid = Grid::new(vec![
        7, 2, 6, 4, 9, 3, 8, 1, 5, // row 0
        3, 1, 5, 7, 2, 8, 9, 4, 6, // row 1
        4, 8, 9, 6, 5, 1, 2, 3, 7, // row 2
        8, 5, 2, 1, 4, 7, 6, 9, 3, // row 3
        6, 7, 3, 9, 8, 5, 1, 2, 4, // row 4
        9, 4, 1, 3, 6, 2, 7, 5, 8, // row 5
        1, 9, 4, 8, 3, 6, 5, 7, 2, // row 6
        5, 6, 7, 2, 1, 4, 3, 8, 0, // row 7
        2, 3, 8, 5, 7, 9, 4, 0, 1, // row 8
    ])
    .unwrap();
    assert_eq!(
        checker.check_subsections(&[
            grid.get_subsection_values(GridSubsectionType::Row(0)),
            grid.get_subsection_values(GridSubsectionType::Column(0)),
            grid.get_subsection_values(GridSubsectionType::Square(0, 0)),
            grid.get_subsection_values(GridSubsectionType::Row(8)),
            grid.get_subsection_values(GridSubsectionType::Column(8)),
            grid.get_subsection_values(GridSubsectionType::Square(2, 2))
        ]),
        vec![
            (
                GridSubsectionType::Row(0),
                CheckerResult {
                    valid: true,
                    complete: true
                }
            ),
            (
                GridSubsectionType::Column(0),
                CheckerResult {
                    valid: true,
                    complete: true
                }
            ),
            (
                GridSubsectionType::Square(0, 0),
                CheckerResult {
                    valid: true,
                    complete: true
                }
            ),
            (
                GridSubsectionType::Row(8),
                CheckerResult {
                    valid: true,
                    complete: false
                }
            ),
            (
                GridSubsectionType::Column(8),
                CheckerResult {
                    valid: true,
                    complete: false
                }
            ),
            (
                GridSubsectionType::Square(2, 2),
                CheckerResult {
                    valid: true,
                    complete: false
                }
            )
        ]
    );
}

#[test]
fn check_subsections_invalid() {
    let mut checker = Checker::new();
    let grid = Grid::new(vec![
        7, 2, 7, 4, 9, 3, 8, 1, 5, // row 0
        3, 9, 5, 7, 2, 8, 9, 4, 6, // row 1
        6, 8, 9, 6, 5, 1, 2, 3, 7, // row 2
        8, 5, 2, 1, 4, 7, 6, 9, 3, // row 3
        6, 7, 3, 9, 8, 5, 1, 2, 4, // row 4
        9, 4, 1, 3, 6, 2, 7, 5, 8, // row 5
        1, 9, 4, 8, 3, 6, 5, 7, 2, // row 6
        5, 6, 7, 2, 1, 4, 3, 8, 0, // row 7
        2, 3, 8, 5, 7, 9, 4, 0, 8, // row 8
    ])
    .unwrap();
    assert_eq!(
        checker.check_subsections(&[
            grid.get_subsection_values(GridSubsectionType::Row(0)),
            grid.get_subsection_values(GridSubsectionType::Column(0)),
            grid.get_subsection_values(GridSubsectionType::Square(0, 0)),
            grid.get_subsection_values(GridSubsectionType::Row(8)),
            grid.get_subsection_values(GridSubsectionType::Column(8)),
            grid.get_subsection_values(GridSubsectionType::Square(2, 2))
        ]),
        vec![
            (
                GridSubsectionType::Row(0),
                CheckerResult {
                    valid: false,
                    complete: true
                }
            ),
            (
                GridSubsectionType::Column(0),
                CheckerResult {
                    valid: false,
                    complete: true
                }
            ),
            (
                GridSubsectionType::Square(0, 0),
                CheckerResult {
                    valid: false,
                    complete: true
                }
            ),
            (
                GridSubsectionType::Row(8),
                CheckerResult {
                    valid: false,
                    complete: false
                }
            ),
            (
                GridSubsectionType::Column(8),
                CheckerResult {
                    valid: false,
                    complete: false
                }
            ),
            (
                GridSubsectionType::Square(2, 2),
                CheckerResult {
                    valid: false,
                    complete: false
                }
            )
        ]
    );
}

#[test]
fn the_four_outcomes_of_a_check() {
    // Rows of a 4x4 board: distinct and full, one zero, a repeat, a repeat and a zero.
    let grid = Grid::new(vec![
        1, 2, 3, 4, // row 0
        1, 2, 3, 0, // row 1
        1, 2, 1, 4, // row 2
        2, 0, 2, 1, // row 3
    ])
    .unwrap();
    let mut checker = Checker::new();
    let rows = grid.get_row_values();
    assert_eq!(checker.check_subsection(&rows[0]), result(true, true));
    assert_eq!(checker.check_subsection(&rows[1]), result(true, false));
    assert_eq!(checker.check_subsection(&rows[2]), result(false, true));
    assert_eq!(checker.check_subsection(&rows[3]), result(false, false));
}

#[test]
fn zeros_are_not_duplicates_and_scanning_goes_on() {
    let grid = Grid::new(vec![
        0, 0, 0, 0, // row 0
        3, 3, 0, 4, // row 1
        0, 0, 0, 0, // row 2
        0, 0, 0, 0, // row 3
    ])
    .unwrap();
    let mut checker = Checker::new();
    let rows = grid.get_row_values();
    assert_eq!(checker.check_subsection(&rows[0]), result(true, false));
    // The repeat comes first; the zero after it still clears `complete`.
    assert_eq!(checker.check_subsection(&rows[1]), result(false, false));
}
