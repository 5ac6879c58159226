use nonogram::game::{Game, Job, SolveError, Solver};
use nonogram::line::Square;
use nonogram::text::str_from_line;

fn grid_text(game: &Game) -> Vec<String> {
    game.grid.iter().map(|row| str_from_line(row.clone())).collect()
}

#[test]
fn new_game_is_unknown() {
    let game = Game::new(vec![vec![1], vec![2], vec![]], vec![vec![1], vec![1, 1]]);
    assert_eq!(game.rows, 2);
    assert_eq!(game.cols, 3);
    assert_eq!(game.grid, vec![vec![Square::Unknown; 3]; 2]);
    assert_eq!(game.grid_pos, None);
}

#[test]
fn rows_and_columns() {
    let mut game = Game::new(vec![vec![1], vec![2]], vec![vec![1], vec![1, 1]]);
    game.set_row(1, vec![Square::Filled, Square::Empty]);
    assert_eq!(game.get_row(1), (vec![1, 1], vec![Square::Filled, Square::Empty]));
    assert_eq!(game.get_col(0), (vec![1], vec![Square::Unknown, Square::Filled]));
    game.set_col(1, vec![Square::Filled, Square::Filled]);
    assert_eq!(game.get_col(1), (vec![2], vec![Square::Filled, Square::Filled]));
    assert_eq!(game.get_row(0), (vec![1], vec![Square::Unknown, Square::Filled]));
    assert_eq!(game.get_row(1), (vec![1, 1], vec![Square::Filled, Square::Filled]));
}

#[test]
fn solver_starts_unsolved() {
    let solver = Solver::new(Game::new(vec![vec![1]], vec![vec![1], vec![]]));
    assert_eq!(solver.solved_rows, vec![false, false]);
    assert_eq!(solver.solved_cols, vec![false]);
}

#[test]
fn two_by_two_diagonal_is_ambiguous() {
    // both diagonals satisfy these hints, so line-by-line deduction stalls
    let mut solver = Solver::new(Game::new(vec![vec![1], vec![1]], vec![vec![1], vec![1]]));
    let mut trace = Vec::new();
    assert_eq!(solver.solve(&mut trace), Err(SolveError::Stuck));
    assert!(trace.is_empty());
    assert_eq!(grid_text(&solver.game), vec!["__", "__"]);
}

#[test]
fn two_by_two_unique_converges_in_two_passes() {
    let mut solver = Solver::new(Game::new(vec![vec![2], vec![1]], vec![vec![1], vec![2]]));
    let mut trace = Vec::new();
    let passes = solver.solve(&mut trace).unwrap();
    assert_eq!(passes, 2);
    assert!(passes as usize <= solver.game.rows + solver.game.cols);
    assert_eq!(grid_text(&solver.game), vec!["ox", "oo"]);
    assert_eq!(solver.solved_rows, vec![true, true]);
    assert_eq!(solver.solved_cols, vec![true, true]);
    assert_eq!(trace[0], (Job::Row(1), vec![Square::Filled, Square::Filled]));
}

#[test]
fn contradiction_is_reported() {
    let mut solver = Solver::new(Game::new(vec![vec![3]], vec![vec![1], vec![1]]));
    let mut trace = Vec::new();
    assert_eq!(solver.solve(&mut trace), Err(SolveError::Contradiction));
}

#[test]
fn larger_puzzle_solves() {
    let col_hints = vec![
        vec![1, 3],
        vec![1, 5, 1],
        vec![5, 3],
        vec![2, 1, 1],
        vec![4],
        vec![2],
        vec![2],
        vec![1, 1],
        vec![1, 1, 1],
        vec![1, 1, 1, 1],
    ];
    let row_hints = vec![
        vec![2],
        vec![1, 1],
        vec![2],
        vec![3, 1],
        vec![4, 1],
        vec![2, 2, 1, 1],
        vec![2, 3, 1],
        vec![6, 1],
        vec![1, 1, 1],
        vec![1, 1, 1],
    ];
    let mut solver = Solver::new(Game::new(col_hints.clone(), row_hints.clone()));
    let mut trace = Vec::new();
    let passes = solver.solve(&mut trace).unwrap();
    assert!(passes >= 1 && passes <= 101);
    for (i, h) in row_hints.iter().enumerate() {
        let (_, row) = solver.game.get_row(i);
        assert!(Game::check_line(h, &row));
    }
    for (i, h) in col_hints.iter().enumerate() {
        let (_, col) = solver.game.get_col(i);
        assert!(Game::check_line(h, &col));
    }
}

#[test]
fn trace_replays_to_final_grid() {
    let mut solver = Solver::new(Game::new(vec![vec![2], vec![1]], vec![vec![1], vec![2]]));
    let mut trace = Vec::new();
    solver.solve(&mut trace).unwrap();
    let mut grid = vec![vec![Square::Unknown; 2]; 2];
    for (job, line) in &trace {
        let before = grid.clone();
        match job {
            Job::Row(i) => grid[*i] = line.clone(),
            Job::Col(c) => {
                for (r, cell) in line.iter().enumerate() {
                    grid[r][*c] = *cell;
                }
            }
        }
        assert_ne!(before, grid);
    }
    assert_eq!(grid, solver.game.grid);
}
