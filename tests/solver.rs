use sudoku::game::Game;
use sudoku::solver::{Solver, SolverStatus};

const PUZZLE: [usize; 81] = [
    4, 6, 7, 1, 0, 0, 8, 0, 5, // row 0
    9, 1, 2, 8, 3, 5, 6, 0, 7, // row 1
    0, 8, 5, 6, 4, 7, 1, 9, 2, // row 2
    2, 9, 6, 3, 5, 1, 4, 7, 0, // row 3
    7, 0, 8, 9, 2, 0, 3, 5, 1, // row 4
    5, 3, 1, 4, 0, 8, 9, 2, 6, // row 5
    0, 7, 3, 0, 6, 4, 5, 1, 0, // row 6
    6, 2, 4, 5, 1, 9, 7, 8, 3, // row 7
    1, 5, 9, 7, 8, 3, 0, 6, 4, // row 8
];

fn cells(game: &Game) -> Vec<usize> {
    game.get_rows().into_iter().flat_map(|r| r.to_vec()).collect()
}

#[test]
fn solves_a_valid_game() {
    assert_eq!(
        Solver::solve(
            Game::new(vec![
                4, 6, 7, 1, 0, 0, 8, 0, 5, // row 0
                9, 1, 2, 8, 3, 5, 6, 0, 7, // row 1
                0, 8, 5, 6, 4, 7, 1, 9, 2, // row 2
                2, 9, 6, 3, 5, 1, 4, 7, 0, // row 3
                7, 0, 8, 9, 2, 0, 3, 5, 1, // row 4
                5, 3, 1, 4, 0, 8, 9, 2, 6, // row 5
                0, 7, 3, 0, 6, 4, 5, 1, 0, // row 6
                6, 2, 4, 5, 1, 9, 7, 8, 3, // row 7
                1, 5, 9, 7, 8, 3, 0, 6, 4, // row 8
            ])
            .unwrap(),
        )
        .get_rows()
        .into_iter()
        .flat_map(|t| t.to_vec())
        .collect::<Vec<_>>(),
        vec![
            4, 6, 7, 1, 9, 2, 8, 3, 5, // row 0
            9, 1, 2, 8, 3, 5, 6, 4, 7, // row 1
            3, 8, 5, 6, 4, 7, 1, 9, 2, // row 2
            2, 9, 6, 3, 5, 1, 4, 7, 8, // row 3
            7, 4, 8, 9, 2, 6, 3, 5, 1, // row 4
            5, 3, 1, 4, 7, 8, 9, 2, 6, // row 5
            8, 7, 3, 2, 6, 4, 5, 1, 9, // row 6
            6, 2, 4, 5, 1, 9, 7, 8, 3, // row 7
            1, 5, 9, 7, 8, 3, 2, 6, 4, // row 8
        ]
    );
}

#[test]
fn solving_twice_gives_the_same_board() {
    let first = Solver::solve(Game::new(PUZZLE.to_vec()).unwrap());
    let second = Solver::solve(Game::new(PUZZLE.to_vec()).unwrap());
    assert_eq!(cells(&first), cells(&second));
    let empty_a = Solver::solve(Game::new(vec![0; 16]).unwrap());
    let empty_b = Solver::solve(Game::new(vec![0; 16]).unwrap());
    assert_eq!(cells(&empty_a), cells(&empty_b));
}

#[test]
fn solved_board_is_correct_and_keeps_its_clues() {
    let clues = vec![
        0, 0, 3, 0, // row 0
        0, 4, 0, 0, // row 1
        0, 0, 1, 0, // row 2
        2, 0, 0, 0, // row 3
    ];
    let solved = Solver::solve(Game::new(clues.clone()).unwrap());
    assert!(solved.is_complete());
    assert!(solved.invalid_subsections().is_empty());
    assert!(solved.is_correct());
    let out = cells(&solved);
    for i in 0..16 {
        if clues[i] != 0 {
            assert_eq!(out[i], clues[i]);
        }
    }
}

#[test]
fn first_step_places_one_at_the_last_empty_cell() {
    let mut solver = Solver::new(Game::new(PUZZLE.to_vec()).unwrap());
    assert_eq!(solver.status(), SolverStatus::InProgress);
    assert_eq!(solver.next(), SolverStatus::InProgress);
    assert_eq!(solver.game().grid().get_cell((6, 8)), Ok(1));
    assert_eq!(solver.game().grid().get_cell((8, 6)), Ok(0));
}

#[test]
fn stepping_reaches_the_solution() {
    let mut solver = Solver::new(Game::new(PUZZLE.to_vec()).unwrap());
    let mut steps = 0;
    while solver.next() == SolverStatus::InProgress {
        steps += 1;
    }
    assert!(steps > 0);
    assert_eq!(solver.status(), SolverStatus::Solved);
    assert_eq!(solver.next(), SolverStatus::Solved);
    assert!(solver.game().is_correct());
}

#[test]
fn contradictory_puzzle_is_reported_unsolvable() {
    // (0, 0) can hold neither 2, 3, 4 (its row) nor 1 (its column).
    let puzzle = vec![
        0, 2, 3, 4, // row 0
        3, 4, 0, 0, // row 1
        1, 0, 0, 0, // row 2
        0, 0, 0, 0, // row 3
    ];
    let mut solver = Solver::new(Game::new(puzzle.clone()).unwrap());
    let mut status = solver.status();
    while status == SolverStatus::InProgress {
        status = solver.next();
    }
    assert_eq!(status, SolverStatus::Unsolvable);
    assert_eq!(solver.next(), SolverStatus::Unsolvable);
    let stopped = Solver::solve(Game::new(puzzle).unwrap());
    assert!(!stopped.is_correct());
}

#[test]
fn invalid_start_is_unsolvable_at_once() {
    let mut solver = Solver::new(
        Game::new(vec![
            1, 1, 0, 0, // row 0
            0, 0, 0, 0, // row 1
            0, 0, 0, 0, // row 2
            0, 0, 0, 0, // row 3
        ])
        .unwrap(),
    );
    assert_eq!(solver.next(), SolverStatus::Unsolvable);
}

#[test]
fn solved_board_stays_as_it_is() {
    let full = vec![
        1, 2, 3, 4, // row 0
        3, 4, 1, 2, // row 1
        2, 1, 4, 3, // row 2
        4, 3, 2, 1, // row 3
    ];
    let mut solver = Solver::new(Game::new(full.clone()).unwrap());
    assert_eq!(solver.status(), SolverStatus::Solved);
    assert_eq!(solver.next(), SolverStatus::Solved);
    assert_eq!(cells(&Solver::solve(Game::new(full.clone()).unwrap())), full);
}
