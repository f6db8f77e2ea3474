use nonogram_solver::grid::{CellState, Constraints, Grid};
use nonogram_solver::solver::{
    AdvancedHeuristics, AdvancedSolver, AdvancedSolverConfig, BacktrackingConfig,
    BacktrackingSolver, ContradictionDetector, CrossAnalyzer, Deduction, NonogramSolver,
    OptimizedBacktrackingSolver, ParallelSolver, SolveError, UltimateSolver, UltimateSolverConfig,
};

fn no_runs(n: usize) -> Vec<Vec<usize>> {
    vec![vec![]; n]
}

#[test]
fn test_solver_creation() {
    let _solver = NonogramSolver::new();
    assert!(true);
}

#[test]
fn test_simple_solve() {
    let mut grid = Grid::new(5, 5);
    let rows = vec![vec![5], vec![1], vec![1], vec![1], vec![5]];
    let columns = vec![vec![2], vec![1, 1], vec![1, 1], vec![1, 1], vec![2]];
    let constraints = Constraints::new(5, 5, rows, columns).unwrap();

    let mut solver = NonogramSolver::new();
    let result = solver.solve(&mut grid, &constraints);

    // The first and last row are full, so the first column holds two filled cells that
    // no single run of two can cover.
    assert_eq!(result, Err(SolveError::InfeasibleLine));
}

#[test]
fn test_find_filled_blocks() {
    let heuristics = AdvancedHeuristics::new();
    let line = vec![
        CellState::Empty,
        CellState::Filled,
        CellState::Filled,
        CellState::Empty,
        CellState::Filled,
    ];

    let blocks = heuristics.find_filled_blocks(&line);
    assert_eq!(blocks.len(), 2);
    assert_eq!(blocks[0], (1, 2));
    assert_eq!(blocks[1], (4, 1));
}

#[test]
fn test_puncturing() {
    let mut grid = Grid::new(5, 1);
    let constraints =
        Constraints::new(5, 1, vec![vec![2]], vec![vec![], vec![1], vec![1], vec![], vec![]])
            .unwrap();

    grid.set(0, 1, CellState::Filled).unwrap();
    grid.set(0, 2, CellState::Filled).unwrap();

    let heuristics = AdvancedHeuristics::new();
    let deductions = heuristics.apply(&grid, &constraints).unwrap();

    assert!(deductions.iter().any(|d| d.col == 0 && d.state == CellState::Crossed));
    assert!(deductions.iter().any(|d| d.col == 3 && d.state == CellState::Crossed));
    assert!(deductions.iter().any(|d| d.col == 4 && d.state == CellState::Crossed));
}

fn cross_puzzle() -> Constraints {
    let lines = vec![vec![2], vec![1, 1], vec![5], vec![1, 1], vec![2]];
    Constraints::new(5, 5, lines.clone(), lines).unwrap()
}

#[test]
fn test_advanced_solver_simple() {
    let mut grid = Grid::new(5, 5);
    let constraints = cross_puzzle();

    let mut solver = AdvancedSolver::new();
    let deductions = solver.solve(&mut grid, &constraints).unwrap();

    assert!(!deductions.is_empty());

    assert_eq!(grid.get(2, 0), Some(CellState::Filled));
    assert_eq!(grid.get(2, 1), Some(CellState::Filled));
    assert_eq!(grid.get(2, 2), Some(CellState::Filled));
    assert_eq!(grid.get(2, 3), Some(CellState::Filled));
    assert_eq!(grid.get(2, 4), Some(CellState::Filled));
}

fn plus_puzzle() -> Constraints {
    let lines = vec![vec![1], vec![3], vec![1]];
    Constraints::new(3, 3, lines.clone(), lines).unwrap()
}

#[test]
fn test_backtracking_simple() {
    let mut grid = Grid::new(3, 3);
    let constraints = plus_puzzle();

    let config = BacktrackingConfig { max_depth: 5, max_states: 100, verbose: false };

    let mut solver = BacktrackingSolver::with_config(config);
    let result = solver.solve(&mut grid, &constraints);

    assert!(result.is_ok());
}

#[test]
fn test_optimized_backtracking_creation() {
    let solver = OptimizedBacktrackingSolver::new();
    assert_eq!(solver.states_explored(), 0);
}

#[test]
fn test_optimized_backtracking_simple() {
    let mut grid = Grid::new(5, 5);
    let rows = vec![vec![5], vec![1], vec![1], vec![1], vec![5]];
    let columns = vec![vec![2], vec![1, 1], vec![1, 1], vec![1, 1], vec![2]];
    let constraints = Constraints::new(5, 5, rows, columns).unwrap();

    let mut solver = OptimizedBacktrackingSolver::new();
    let result = solver.solve(&mut grid, &constraints);

    // The same puzzle as in `test_simple_solve`: its first column cannot be completed.
    assert_eq!(result, Err(SolveError::InfeasibleLine));
}

#[test]
fn test_valid_grid() {
    let mut grid = Grid::new(5, 1);
    let constraints =
        Constraints::new(5, 1, vec![vec![2]], vec![vec![], vec![1], vec![1], vec![], vec![]])
            .unwrap();

    grid.set(0, 1, CellState::Filled).unwrap();
    grid.set(0, 2, CellState::Filled).unwrap();

    let mut detector = ContradictionDetector::new();
    assert!(detector.is_valid(&grid, &constraints));
}

#[test]
fn test_invalid_grid_too_many_blocks() {
    let mut grid = Grid::new(5, 1);
    let constraints =
        Constraints::new(5, 1, vec![vec![1]], vec![vec![1], vec![], vec![], vec![], vec![]])
            .unwrap();

    grid.set(0, 0, CellState::Filled).unwrap();
    grid.set(0, 2, CellState::Filled).unwrap();
    grid.set(0, 1, CellState::Crossed).unwrap();

    let mut detector = ContradictionDetector::new();
    assert!(!detector.is_valid(&grid, &constraints));
}

#[test]
fn test_hypothesis_valid() {
    let grid = Grid::new(5, 1);
    let constraints =
        Constraints::new(5, 1, vec![vec![2]], vec![vec![], vec![1], vec![1], vec![], vec![]])
            .unwrap();

    let mut detector = ContradictionDetector::new();
    assert!(detector.test_hypothesis(&grid, &constraints, 0, 1, CellState::Filled));
}

#[test]
fn test_overlap_analysis_simple() {
    let grid = Grid::new(7, 1);
    let constraints = Constraints::new(7, 1, vec![vec![5]], no_runs(7)).unwrap();

    let analyzer = CrossAnalyzer::new();
    let deductions = analyzer.analyze(&grid, &constraints).unwrap();

    assert!(deductions.iter().any(|d| d.col == 2 && d.state == CellState::Filled));
    assert!(deductions.iter().any(|d| d.col == 3 && d.state == CellState::Filled));
    assert!(deductions.iter().any(|d| d.col == 4 && d.state == CellState::Filled));
}

#[test]
fn test_edge_forcing() {
    let mut grid = Grid::new(5, 1);
    let constraints = Constraints::new(5, 1, vec![vec![3]], no_runs(5)).unwrap();

    grid.set(0, 1, CellState::Filled).unwrap();

    let analyzer = CrossAnalyzer::new();
    let deductions = analyzer.analyze(&grid, &constraints).unwrap();

    assert!(deductions.iter().any(|d| d.col == 0 && d.state == CellState::Filled));
    assert!(deductions.iter().any(|d| d.col == 2 && d.state == CellState::Filled));
}

#[test]
fn test_parallel_solver() {
    let mut grid = Grid::new(5, 5);
    let constraints = cross_puzzle();

    let solver = ParallelSolver::new();
    let deductions = solver.solve(&mut grid, &constraints).unwrap();

    assert!(!deductions.is_empty());
}

#[test]
fn test_ultimate_solver_simple() {
    let mut grid = Grid::new(5, 5);
    let constraints = cross_puzzle();

    let mut solver = UltimateSolver::new();
    let deductions = solver.solve(&mut grid, &constraints).unwrap();

    assert!(!deductions.is_empty());

    assert_eq!(grid.get(2, 0), Some(CellState::Filled));
    assert_eq!(grid.get(2, 2), Some(CellState::Filled));
    assert_eq!(grid.get(2, 4), Some(CellState::Filled));
}

fn show(grid: &Grid) -> Vec<String> {
    (0..grid.height())
        .map(|r| {
            grid.get_row(r)
                .unwrap()
                .iter()
                .map(|c| match c {
                    CellState::Empty => '.',
                    CellState::Filled => '#',
                    CellState::Crossed => 'X',
                })
                .collect()
        })
        .collect()
}

#[test]
fn line_solving_completes_the_frame_puzzle() {
    let mut grid = Grid::new(5, 5);
    let rows = vec![vec![5], vec![1], vec![1], vec![1], vec![5]];
    let columns = vec![vec![5], vec![1, 1], vec![1, 1], vec![1, 1], vec![5]];
    let constraints = Constraints::new(5, 5, rows, columns).unwrap();
    let mut solver = NonogramSolver::new();
    let result = solver.solve(&mut grid, &constraints);
    assert_eq!(show(&grid), vec!["#####", "#XXX#", "#XXX#", "#XXX#", "#####"]);
    assert_eq!(grid.count_empty_cells(), 0);
    // The full columns at both ends give each middle row two filled cells, which its
    // single run of one cannot cover: the sweep after the last deduction finds the fault.
    assert_eq!(result, Err(SolveError::InfeasibleLine));
}

#[test]
fn parallel_solver_leaves_the_grid_of_the_line_solver() {
    let constraints = cross_puzzle();
    let mut in_turn = Grid::new(5, 5);
    let mut at_once = Grid::new(5, 5);
    let first = NonogramSolver::new().solve(&mut in_turn, &constraints).unwrap();
    let second = ParallelSolver::new().solve(&mut at_once, &constraints).unwrap();
    assert_eq!(show(&in_turn), show(&at_once));
    assert_eq!(first.len(), second.len());
    let mut sorted = first.clone();
    sorted.sort_by_key(|d: &Deduction| (d.row, d.col));
    let mut other = second.clone();
    other.sort_by_key(|d: &Deduction| (d.row, d.col));
    assert_eq!(sorted, other);
}

#[test]
fn advanced_solver_without_extras_is_the_line_solver() {
    let constraints = cross_puzzle();
    let mut plain = Grid::new(5, 5);
    let mut advanced = Grid::new(5, 5);
    let first = NonogramSolver::new().solve(&mut plain, &constraints).unwrap();
    let config = AdvancedSolverConfig {
        use_cross_analysis: false,
        use_advanced_heuristics: false,
        max_iterations: 100,
        verbose: false,
    };
    let second = AdvancedSolver::with_config(config).solve(&mut advanced, &constraints).unwrap();
    assert_eq!(first, second);
    assert_eq!(show(&plain), show(&advanced));
}

#[test]
fn a_new_advanced_solver_uses_every_rule_for_a_hundred_rounds() {
    let config = AdvancedSolver::new().config();
    assert!(config.use_cross_analysis);
    assert!(config.use_advanced_heuristics);
    assert_eq!(config.max_iterations, 100);
    assert!(!config.verbose);
}

#[test]
fn a_new_search_has_looked_at_no_grid() {
    assert_eq!(OptimizedBacktrackingSolver::new().states_explored(), 0);
}

#[test]
fn every_solver_in_turn_logs_a_cell_once() {
    let mut grid = Grid::new(3, 2);
    let constraints =
        Constraints::new(3, 2, vec![vec![1], vec![1]], vec![vec![1], vec![1], vec![]]).unwrap();
    let config = UltimateSolverConfig {
        use_parallel: false,
        use_backtracking: true,
        backtracking_depth: 10,
        verbose: false,
        ..UltimateSolverConfig::default()
    };
    let mut solver = UltimateSolver::with_config(config);
    let log = solver.solve(&mut grid, &constraints).unwrap();
    assert_eq!(log.len(), 6);
    for (i, d) in log.iter().enumerate() {
        assert!(log[..i].iter().all(|e| (e.row, e.col) != (d.row, d.col)));
        assert_eq!(grid.get(d.row, d.col), Some(d.state));
    }
    assert_eq!(grid.count_empty_cells(), 0);
    assert_eq!(grid.get(0, 2), Some(CellState::Crossed));
    assert_eq!(grid.get(1, 2), Some(CellState::Crossed));
}

#[test]
fn a_grid_that_comes_back_complete_is_a_solution() {
    // rows and columns that ask for the same cells
    let constraints =
        Constraints::new(3, 2, vec![vec![1], vec![1]], vec![vec![1], vec![1], vec![]]).unwrap();
    let runs_of = |line: Vec<CellState>| -> Vec<usize> {
        line.split(|c| *c != CellState::Filled).map(|run| run.len()).filter(|n| *n > 0).collect()
    };
    let mut grid = Grid::new(3, 2);
    let mut solver = OptimizedBacktrackingSolver::new();
    assert!(solver.solve(&mut grid, &constraints).is_ok());
    assert_eq!(grid.count_empty_cells(), 0);
    for r in 0..2 {
        assert_eq!(runs_of(grid.get_row(r).unwrap()), constraints.rows[r]);
    }
    for c in 0..3 {
        assert_eq!(runs_of(grid.get_column(c).unwrap()), constraints.columns[c]);
    }
}

#[test]
fn a_complete_grid_that_is_no_solution_is_a_fault() {
    // the column without runs holds a filled cell from the start
    let constraints = Constraints::new(2, 1, vec![vec![1]], vec![vec![], vec![1]]).unwrap();
    let mut grid = Grid::new(2, 1);
    grid.set(0, 0, CellState::Filled).unwrap();
    grid.set(0, 1, CellState::Crossed).unwrap();
    assert_eq!(NonogramSolver::new().solve(&mut grid, &constraints), Err(SolveError::InfeasibleLine));
    assert_eq!(AdvancedSolver::new().solve(&mut grid, &constraints), Err(SolveError::InfeasibleLine));
    assert_eq!(
        OptimizedBacktrackingSolver::new().solve(&mut grid, &constraints),
        Err(SolveError::InfeasibleLine)
    );
    assert_eq!(UltimateSolver::new().solve(&mut grid, &constraints), Err(SolveError::InfeasibleLine));
}
