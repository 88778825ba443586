use sudoku::game::Game;
use sudoku::grid::{GridError, GridSubsectionType};

const PUZZLE: [usize; 81] = [
    4, 6, 7, 1, 0, 0, 8, 0, 5, // row 0
    9, 1, 2, 8, 3, 5, 6, 0, 7, // row 1
    0, 8, 5, 6, 4, 7, 1, 9, 2, // row 2
    2, 9, 6, 3, 5, 1, 4, 7, 0, // row 3
    7, 0, 8, 9, 2, 0, 3, 5, 1, // row 4
    5, 3, 1, 4, 0, 8, 9, 2, 6, // row 5
    0, 7, 3, 0, 6, 4, 5, 1, 0, // row 6
    6, 2, 4, 5, 1, 9, 7, 8, 3, // row 7
    1, 5, 9, 7, 8, 3, 0, 6, 4, // row 8
];

fn cells(game: &Game) -> Vec<usize> {
    game.get_rows().into_iter().flat_map(|r| r.to_vec()).collect()
}

#[test]
fn test() {}

#[test]
fn fresh_game_has_fresh_caches() {
    let game = Game::new(PUZZLE.to_vec()).unwrap();
    assert!(game.invalid_subsections().is_empty());
    assert!(!game.is_complete());
    assert!(!game.is_correct());
    assert_eq!(game.size(), 9);
    assert_eq!(cells(&game), PUZZLE.to_vec());
}

#[test]
fn bad_boards_are_refused() {
    assert_eq!(Game::new(vec![0; 10]).err(), Some(GridError::InvalidGridSize));
    let mut cells = vec![0; 16];
    cells[3] = 9;
    assert_eq!(Game::new(cells).err(), Some(GridError::InvalidCellValue(3)));
}

#[test]
fn a_conflict_marks_row_box_and_column_in_order() {
    let mut game = Game::new(PUZZLE.to_vec()).unwrap();
    let entry = game.add_entry((4, 0), 4).unwrap();
    assert_eq!(entry.position, (4, 0));
    assert_eq!(entry.value, 4);
    assert_eq!(entry.previous_value, 0);
    assert_eq!(
        game.invalid_subsections(),
        &vec![
            GridSubsectionType::Row(0),
            GridSubsectionType::Square(1, 0),
            GridSubsectionType::Column(4)
        ]
    );
    assert!(!game.is_correct());
}

#[test]
fn undo_right_after_add_restores_everything() {
    let mut game = Game::new(PUZZLE.to_vec()).unwrap();
    game.add_entry((7, 1), 4).unwrap();
    let board = cells(&game);
    let invalid = game.invalid_subsections().clone();
    let complete = game.is_complete();

    let added = game.add_entry((4, 0), 4).unwrap();
    assert_ne!(game.invalid_subsections(), &invalid);
    let undone = game.undo_entry().unwrap();
    assert_eq!(undone.position, added.position);
    assert_eq!(undone.value, added.value);
    assert_eq!(undone.previous_value, added.previous_value);
    assert_eq!(cells(&game), board);
    assert_eq!(game.invalid_subsections(), &invalid);
    assert_eq!(game.is_complete(), complete);
    assert_eq!(game.selected, (4, 0));
}

#[test]
fn undo_on_empty_history_does_nothing() {
    let mut game = Game::new(PUZZLE.to_vec()).unwrap();
    assert!(game.undo_entry().is_none());
    assert_eq!(cells(&game), PUZZLE.to_vec());
}

#[test]
fn add_entry_errors_leave_the_game_alone() {
    let mut game = Game::new(PUZZLE.to_vec()).unwrap();
    assert_eq!(game.add_entry((9, 0), 1).err(), Some(GridError::CellOutOfBounds));
    assert_eq!(
        game.add_entry((0, 0), 1).err(),
        Some(GridError::ReadonlyCellMutation)
    );
    assert_eq!(
        game.add_entry((4, 0), 10).err(),
        Some(GridError::InvalidCellValue(4))
    );
    assert_eq!(cells(&game), PUZZLE.to_vec());
    assert!(game.undo_entry().is_none());
}

#[test]
fn clues_survive_any_edits() {
    let mut game = Game::new(PUZZLE.to_vec()).unwrap();
    for (x, y) in [(0, 0), (3, 0), (8, 8), (4, 2)] {
        assert!(game.add_entry((x, y), 3).is_err());
    }
    game.add_entry((4, 0), 9).unwrap();
    game.add_entry((4, 0), 2).unwrap();
    game.add_entry((0, 2), 3).unwrap();
    game.undo_entry();
    game.undo_entry();
    game.undo_entry();
    game.undo_entry();
    game.add_entry((7, 0), 5).unwrap();
    let now = cells(&game);
    for i in 0..81 {
        if PUZZLE[i] != 0 {
            assert_eq!(now[i], PUZZLE[i]);
        }
    }
}

#[test]
fn is_correct_changes_nothing() {
    let mut game = Game::new(PUZZLE.to_vec()).unwrap();
    game.add_entry((4, 0), 4).unwrap();
    let board = cells(&game);
    let invalid = game.invalid_subsections().clone();
    let first = game.is_correct();
    for _ in 0..10 {
        assert_eq!(game.is_correct(), first);
    }
    assert_eq!(cells(&game), board);
    assert_eq!(game.invalid_subsections(), &invalid);
}

#[test]
fn unset_cell_records_only_real_changes() {
    let mut game = Game::new(PUZZLE.to_vec()).unwrap();
    assert_eq!(game.unset_cell((4, 0)), Ok(()));
    assert!(game.undo_entry().is_none());
    game.add_entry((4, 0), 4).unwrap();
    assert_eq!(game.unset_cell((4, 0)), Ok(()));
    assert_eq!(game.grid().get_cell((4, 0)), Ok(0));
    assert!(game.invalid_subsections().is_empty());
    let undone = game.undo_entry().unwrap();
    assert_eq!(undone.value, 0);
    assert_eq!(undone.previous_value, 4);
    assert_eq!(game.grid().get_cell((4, 0)), Ok(4));
    assert_eq!(
        game.unset_cell((0, 0)),
        Err(GridError::ReadonlyCellMutation)
    );
    assert_eq!(game.unset_cell((0, 9)), Err(GridError::CellOutOfBounds));
}

#[test]
fn reset_clears_entries_and_history() {
    let mut game = Game::new(PUZZLE.to_vec()).unwrap();
    game.add_entry((4, 0), 4).unwrap();
    game.add_entry((5, 0), 2).unwrap();
    game.reset();
    assert_eq!(cells(&game), PUZZLE.to_vec());
    assert!(game.invalid_subsections().is_empty());
    assert!(game.undo_entry().is_none());
}

#[test]
fn full_valid_board_is_correct() {
    let game = Game::new(vec![
        1, 2, 3, 4, // row 0
        3, 4, 1, 2, // row 1
        2, 1, 4, 3, // row 2
        4, 3, 2, 1, // row 3
    ])
    .unwrap();
    assert!(game.is_complete());
    assert!(game.is_correct());
    assert_eq!(game.get_columns()[1].to_vec(), vec![2, 4, 1, 3]);
    assert_eq!(game.get_square()[3].to_vec(), vec![4, 3, 2, 1]);
}

#[test]
fn game_text_is_its_board_text() {
    let mut game = Game::new(vec![
        1, 0, 0, 0, // row 0
        0, 0, 0, 0, // row 1
        0, 0, 0, 0, // row 2
        0, 0, 0, 2, // row 3
    ])
    .unwrap();
    game.add_entry((1, 0), 3).unwrap();
    assert_eq!(game.to_string(), "1,_,_,_\n3,_,_,_\n_,_,_,_\n_,_,_,2\n");
    assert_eq!(game.to_string(), game.grid().to_string());
}
