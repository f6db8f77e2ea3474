use nonogram_solver::grid::CellState;
use nonogram_solver::solver::{LineSolver, OptimizedLineSolver, SolveError};

#[test]
fn test_empty_constraint() {
    let solver = LineSolver::new();
    let line = vec![CellState::Empty; 5];
    let constraint = vec![];
    let deductions = solver.solve_line(&line, &constraint).unwrap();

    assert_eq!(deductions.len(), 5);
    for (_, state) in deductions {
        assert_eq!(state, CellState::Crossed);
    }
}

#[test]
fn test_full_line() {
    let solver = LineSolver::new();
    let line = vec![CellState::Empty; 5];
    let constraint = vec![5];
    let deductions = solver.solve_line(&line, &constraint).unwrap();

    assert_eq!(deductions.len(), 5);
    for (_, state) in deductions {
        assert_eq!(state, CellState::Filled);
    }
}

#[test]
fn test_partial_deduction() {
    let solver = LineSolver::new();
    let line = vec![CellState::Empty; 7];
    let constraint = vec![5];
    let deductions = solver.solve_line(&line, &constraint).unwrap();

    assert!(!deductions.is_empty());
}

#[test]
fn test_multiple_blocks() {
    let solver = LineSolver::new();
    let line = vec![CellState::Empty; 7];
    let constraint = vec![2, 2];
    let _deductions = solver.solve_line(&line, &constraint).unwrap();

    assert!(true);
}

#[test]
fn test_with_existing_filled() {
    let solver = LineSolver::new();
    let mut line = vec![CellState::Empty; 5];
    line[2] = CellState::Filled;
    let constraint = vec![3];
    let deductions = solver.solve_line(&line, &constraint).unwrap();

    // The run of three can lie at the first, the second or the third cell: no undecided
    // cell has the same state in all three.
    assert!(deductions.is_empty());
}

#[test]
fn test_optimized_solver() {
    let mut solver = OptimizedLineSolver::new();
    let line = vec![CellState::Empty; 5];
    let constraint = vec![5];
    let deductions = solver.solve_line(&line, &constraint).unwrap();

    assert_eq!(deductions.len(), 5);
    for (_, state) in deductions {
        assert_eq!(state, CellState::Filled);
    }
}

#[test]
fn test_cache() {
    let mut solver = OptimizedLineSolver::new();
    let line = vec![CellState::Empty; 7];
    let constraint = vec![3, 2];

    let _ = solver.solve_line(&line, &constraint).unwrap();
    assert_eq!(solver.cache_len(), 1);

    let _ = solver.solve_line(&line, &constraint).unwrap();
    assert_eq!(solver.cache_len(), 1);

    solver.clear_cache();
    assert_eq!(solver.cache_len(), 0);
}

fn cells(text: &str) -> Vec<CellState> {
    text.chars()
        .map(|c| match c {
            '#' => CellState::Filled,
            'X' => CellState::Crossed,
            _ => CellState::Empty,
        })
        .collect()
}

#[test]
fn overlap_of_a_long_run_is_filled() {
    let solver = LineSolver::new();
    let found = solver.solve_line(&cells("......."), &[5]).unwrap();
    assert_eq!(
        found,
        vec![(2, CellState::Filled), (3, CellState::Filled), (4, CellState::Filled)]
    );
}

#[test]
fn both_line_solvers_agree_on_a_line_with_decided_cells() {
    let line = cells(".#...");
    let plain = LineSolver::new().solve_line(&line, &[3]).unwrap();
    let cached = OptimizedLineSolver::new().solve_line(&line, &[3]).unwrap();
    assert_eq!(plain, vec![(2, CellState::Filled), (4, CellState::Crossed)]);
    assert_eq!(cached, plain);
}

#[test]
fn deductions_come_by_position_and_skip_decided_cells() {
    let line = cells("X.#..X..");
    let found = OptimizedLineSolver::new().solve_line(&line, &[3, 1]).unwrap();
    assert_eq!(found, vec![(3, CellState::Filled)]);
    let found = OptimizedLineSolver::new().solve_line(&cells("..#.X..."), &[4, 2]).unwrap();
    assert_eq!(
        found,
        vec![
            (0, CellState::Filled),
            (1, CellState::Filled),
            (3, CellState::Filled),
            (6, CellState::Filled),
        ]
    );
}

#[test]
fn line_without_completion_is_refused() {
    let line = cells("#.#..");
    assert_eq!(LineSolver::new().solve_line(&line, &[1]), Err(SolveError::InfeasibleLine));
    assert_eq!(
        OptimizedLineSolver::new().solve_line(&line, &[1]),
        Err(SolveError::InfeasibleLine)
    );
    assert_eq!(
        LineSolver::new().solve_line(&cells("..."), &[2, 2]),
        Err(SolveError::InfeasibleLine)
    );
}

#[test]
fn line_without_runs_that_holds_a_filled_cell_is_refused() {
    assert_eq!(LineSolver::new().solve_line(&cells(".#.X"), &[]), Err(SolveError::InfeasibleLine));
    assert_eq!(
        OptimizedLineSolver::new().solve_line(&cells(".#.X"), &[]),
        Err(SolveError::InfeasibleLine)
    );
    let found = LineSolver::new().solve_line(&cells("..X."), &[]).unwrap();
    assert_eq!(
        found,
        vec![(0, CellState::Crossed), (1, CellState::Crossed), (3, CellState::Crossed)]
    );
}

#[test]
fn enumeration_lists_every_completion() {
    let solver = LineSolver::new();
    let configs = solver.generate_valid_configurations(&cells("....."), &[2, 1]);
    let mut texts: Vec<String> = configs
        .iter()
        .map(|c| {
            c.iter()
                .map(|s| if *s == CellState::Filled { '#' } else { 'X' })
                .collect()
        })
        .collect();
    texts.sort();
    assert_eq!(texts, vec!["##X#X", "##XX#", "X##X#"]);
    let eager = OptimizedLineSolver::new()
        .generate_valid_configurations_optimized(&cells("....."), &[2, 1]);
    assert_eq!(eager.len(), 3);
}

#[test]
fn enumeration_respects_decided_cells() {
    let solver = OptimizedLineSolver::new();
    let configs = solver.generate_valid_configurations_optimized(&cells("..#.X"), &[2]);
    assert_eq!(configs.len(), 2);
    let plain = LineSolver::new().generate_valid_configurations(&cells("..#.X"), &[2]);
    assert_eq!(plain.len(), 2);
    assert!(solver.is_compatible(&cells("X##XX"), &cells("..#.X")));
    assert!(!solver.is_compatible(&cells("##XXX"), &cells("..#.X")));
    assert_eq!(solver.min_line_length(&[2, 3]), 6);
}
