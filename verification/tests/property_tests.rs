use nonogram_solver::grid::{CellState, Constraints, Grid};
use nonogram_solver::solver::branching::SearchFailure;
use nonogram_solver::solver::state_key::{grid_from_string, grid_to_string};
use nonogram_solver::solver::{
    AdvancedHeuristics, AdvancedSolver, AdvancedSolverConfig, BacktrackingConfig,
    BacktrackingSolver, ContradictionDetector, CrossAnalyzer, Deduction, LineSolver,
    NonogramSolver, OptimizedBacktrackingConfig, OptimizedBacktrackingSolver, OptimizedLineSolver,
    ParallelSolver, SolveError, UltimateSolver, UltimateSolverConfig,
};

const E: CellState = CellState::Empty;
const F: CellState = CellState::Filled;
const X: CellState = CellState::Crossed;

fn cells(text: &str) -> Vec<CellState> {
    text.chars()
        .map(|c| match c {
            '#' => F,
            'X' => X,
            _ => E,
        })
        .collect()
}

fn grid_of(rows: &[&str]) -> Grid {
    let mut grid = Grid::new(rows[0].len(), rows.len());
    for (r, row) in rows.iter().enumerate() {
        grid.set_row(r, cells(row)).unwrap();
    }
    grid
}

fn show(grid: &Grid) -> Vec<String> {
    (0..grid.height())
        .map(|r| {
            grid.get_row(r)
                .unwrap()
                .iter()
                .map(|c| match c {
                    CellState::Empty => '.',
                    CellState::Filled => '#',
                    CellState::Crossed => 'X',
                })
                .collect()
        })
        .collect()
}

/// The run lengths of a line without undecided cells.
fn runs_of(line: &[CellState]) -> Vec<usize> {
    let mut runs = Vec::new();
    let mut current = 0;
    for cell in line {
        if *cell == F {
            current += 1;
        } else if current > 0 {
            runs.push(current);
            current = 0;
        }
    }
    if current > 0 {
        runs.push(current);
    }
    runs
}

/// Every line of filled and crossed cells that keeps the decided cells of `line` and has
/// the run lengths `constraint`, by trying all of them.
fn completions_by_force(line: &[CellState], constraint: &[usize]) -> Vec<Vec<CellState>> {
    let n = line.len();
    let mut found = Vec::new();
    for bits in 0..(1u32 << n) {
        let candidate: Vec<CellState> =
            (0..n).map(|i| if bits & (1 << i) != 0 { F } else { X }).collect();
        let keeps = (0..n).all(|i| line[i] == E || line[i] == candidate[i]);
        if keeps && runs_of(&candidate) == constraint {
            found.push(candidate);
        }
    }
    found
}

/// Every line of `length` cells over the three states.
fn all_lines(length: usize) -> Vec<Vec<CellState>> {
    let mut lines = vec![Vec::new()];
    for _ in 0..length {
        let mut longer = Vec::new();
        for line in &lines {
            for state in [E, F, X] {
                let mut next = line.clone();
                next.push(state);
                longer.push(next);
            }
        }
        lines = longer;
    }
    lines
}

/// Every solution of the puzzle that keeps the decided cells of `grid`.
fn solutions_by_force(grid: &Grid, constraints: &Constraints) -> Vec<Vec<Vec<CellState>>> {
    let (w, h) = (grid.width(), grid.height());
    let mut found = Vec::new();
    for bits in 0..(1u32 << (w * h)) {
        let full: Vec<Vec<CellState>> = (0..h)
            .map(|r| (0..w).map(|c| if bits & (1 << (r * w + c)) != 0 { F } else { X }).collect())
            .collect();
        let keeps = (0..h).all(|r| {
            (0..w).all(|c| {
                let cell = grid.get(r, c).unwrap();
                cell == E || cell == full[r][c]
            })
        });
        let rows_ok = (0..h).all(|r| runs_of(&full[r]) == constraints.rows[r]);
        let cols_ok = (0..w).all(|c| {
            let column: Vec<CellState> = (0..h).map(|r| full[r][c]).collect();
            runs_of(&column) == constraints.columns[c]
        });
        if keeps && rows_ok && cols_ok {
            found.push(full);
        }
    }
    found
}

const LINE_CONSTRAINTS: [&[usize]; 8] = [&[1], &[2], &[3], &[1, 1], &[2, 1], &[1, 2], &[4], &[1, 1, 1]];

#[test]
fn line_solver_finds_exactly_the_cells_that_all_completions_share() {
    for line in all_lines(5) {
        for constraint in LINE_CONSTRAINTS {
            let all = completions_by_force(&line, constraint);
            let result = LineSolver::new().solve_line(&line, constraint);
            let cached = OptimizedLineSolver::new().solve_line(&line, constraint);
            assert_eq!(result, cached);
            if all.is_empty() {
                assert_eq!(result, Err(SolveError::InfeasibleLine));
                continue;
            }
            let expected: Vec<(usize, CellState)> = (0..line.len())
                .filter(|&i| line[i] == E && all.iter().all(|c| c[i] == all[0][i]))
                .map(|i| (i, all[0][i]))
                .collect();
            assert_eq!(result, Ok(expected));
        }
    }
}

#[test]
fn enumeration_is_the_set_of_completions() {
    for line in all_lines(5) {
        for constraint in LINE_CONSTRAINTS {
            let mut expected = completions_by_force(&line, constraint);
            let mut plain = LineSolver::new().generate_valid_configurations(&line, constraint);
            let mut eager = OptimizedLineSolver::new()
                .generate_valid_configurations_optimized(&line, constraint);
            let key = |c: &Vec<CellState>| -> Vec<bool> { c.iter().map(|s| *s == F).collect() };
            expected.sort_by_key(key);
            plain.sort_by_key(key);
            eager.sort_by_key(key);
            assert_eq!(plain, expected);
            assert_eq!(eager, expected);
        }
    }
}

fn small_puzzles() -> Vec<Constraints> {
    let lines: Vec<Vec<Vec<usize>>> = vec![
        vec![vec![1], vec![3], vec![1]],
        vec![vec![2], vec![1], vec![2]],
        vec![vec![1, 1], vec![], vec![1, 1]],
        vec![vec![3], vec![1, 1], vec![3]],
        vec![vec![1], vec![1], vec![1]],
        vec![vec![2], vec![2], vec![]],
    ];
    let mut puzzles = Vec::new();
    for rows in &lines {
        for columns in &lines {
            puzzles.push(Constraints::new(3, 3, rows.clone(), columns.clone()).unwrap());
        }
    }
    puzzles
}

#[test]
fn every_deduction_of_line_solving_holds_in_every_solution() {
    for constraints in small_puzzles() {
        let start = Grid::new(3, 3);
        let solutions = solutions_by_force(&start, &constraints);
        let mut grid = start.clone_grid();
        let result = NonogramSolver::new().solve(&mut grid, &constraints);
        for full in &solutions {
            for r in 0..3 {
                for c in 0..3 {
                    let cell = grid.get(r, c).unwrap();
                    assert!(cell == E || cell == full[r][c]);
                }
            }
        }
        match result {
            Ok(log) => {
                for d in log {
                    assert_eq!(start.get(d.row, d.col), Some(E));
                    assert_eq!(grid.get(d.row, d.col), Some(d.state));
                    for full in &solutions {
                        assert_eq!(full[d.row][d.col], d.state);
                    }
                }
            },
            Err(e) => {
                assert_eq!(e, SolveError::InfeasibleLine);
                assert!(solutions.is_empty());
            },
        }
    }
}

#[test]
fn line_solving_twice_finds_nothing_the_second_time() {
    for constraints in small_puzzles() {
        let mut grid = Grid::new(3, 3);
        let mut solver = NonogramSolver::new();
        if solver.solve(&mut grid, &constraints).is_ok() {
            let before = show(&grid);
            let again = solver.solve(&mut grid, &constraints);
            assert_eq!(again, Ok(Vec::new()));
            assert_eq!(show(&grid), before);
            assert_eq!(solver.find_next_deductions(&grid, &constraints), Ok(Vec::new()));
        }
    }
}

#[test]
fn overlap_cells_are_filled_in_every_completion() {
    let analyzer = CrossAnalyzer::new();
    for length in 1..=7usize {
        for constraint in LINE_CONSTRAINTS {
            let need: usize = constraint.iter().sum::<usize>() + constraint.len() - 1;
            if need > length {
                continue;
            }
            let line = vec![E; length];
            let all = completions_by_force(&line, constraint);
            let grid = Grid::new(length, 1);
            let found = analyzer.overlap_analysis_row(&grid, 0, constraint).unwrap();
            for d in &found {
                assert_eq!(d.state, F);
                assert!(all.iter().all(|c| c[d.col] == F));
            }
            let mut expected = Vec::new();
            let mut before = 0;
            for (k, block) in constraint.iter().enumerate() {
                let after: usize = constraint[k + 1..].iter().map(|b| b + 1).sum();
                let max_start = length - after - block;
                assert_eq!(analyzer.calculate_min_position(constraint, k), before);
                assert_eq!(analyzer.calculate_max_position(constraint, k, length), max_start);
                for col in max_start..before + block {
                    expected.push(Deduction { row: 0, col, state: F });
                }
                before += block + 1;
            }
            assert_eq!(found, expected);
        }
    }
}

#[test]
fn grid_text_round_trip() {
    let grid = grid_of(&["#X#", "...", "X#X", "##."]);
    let text = grid_to_string(&grid);
    assert_eq!(text, "#X#...X#X##.");
    let back = grid_from_string(&text, 3, 4).unwrap();
    assert_eq!(show(&back), show(&grid));
    assert_eq!(back.width(), 3);
    assert_eq!(back.height(), 4);

    let mut solved = Grid::new(3, 3);
    let lines = vec![vec![1], vec![3], vec![1]];
    let constraints = Constraints::new(3, 3, lines.clone(), lines).unwrap();
    NonogramSolver::new().solve(&mut solved, &constraints).unwrap();
    assert_eq!(solved.count_empty_cells(), 0);
    let text = BacktrackingSolver::new().grid_to_string(&solved);
    assert_eq!(text, "X#X###X#X");
    assert_eq!(OptimizedBacktrackingSolver::new().grid_to_string(&solved), text);
    assert_eq!(show(&grid_from_string(&text, 3, 3).unwrap()), show(&solved));
}

#[test]
fn grid_text_that_stands_for_no_grid_is_refused() {
    assert!(grid_from_string("#X#.", 3, 1).is_none());
    assert!(grid_from_string("#X", 3, 1).is_none());
    assert!(grid_from_string("#x#", 3, 1).is_none());
    assert!(grid_from_string("#\u{e9}#", 3, 1).is_none());
    assert!(grid_from_string("", usize::MAX, 2).is_none());
    assert!(grid_from_string("", 0, 5).is_some());
    assert!(grid_from_string("", 5, 0).is_some());
}

#[test]
fn detector_says_no_only_to_grids_without_solution() {
    for constraints in small_puzzles() {
        let positive = constraints.rows.iter().chain(constraints.columns.iter()).all(|l| !l.contains(&0));
        assert!(positive);
        for first in [E, F, X] {
            for second in [E, F, X] {
                for third in [E, F, X] {
                    let mut grid = Grid::new(3, 3);
                    grid.set(0, 0, first).unwrap();
                    grid.set(1, 1, second).unwrap();
                    grid.set(0, 2, third).unwrap();
                    let mut detector = ContradictionDetector::new();
                    if !detector.is_valid(&grid, &constraints) {
                        assert!(solutions_by_force(&grid, &constraints).is_empty());
                    }
                }
            }
        }
    }
}

#[test]
fn the_quick_checks_pass_every_line_that_has_a_completion() {
    let detector = ContradictionDetector::new();
    for line in all_lines(6) {
        for constraint in LINE_CONSTRAINTS {
            if !completions_by_force(&line, constraint).is_empty() {
                assert!(detector.check_line_basic(&line, constraint));
                assert!(detector.check_line_impossible_blocks(&line, constraint));
            }
        }
    }
}

#[test]
fn detector_accepts_filled_cells_that_can_still_join() {
    let grid = grid_of(&["#.#"]);
    let constraints = Constraints::new(3, 1, vec![vec![3]], vec![vec![1], vec![1], vec![1]]).unwrap();
    assert_eq!(solutions_by_force(&grid, &constraints).len(), 1);
    let mut detector = ContradictionDetector::new();
    assert!(detector.is_valid(&grid, &constraints));
    assert!(detector.check_basic_contradictions(&grid, &constraints));
    assert!(detector.check_impossible_blocks(&grid, &constraints));
    assert!(detector.check_deduction_contradictions(&grid, &constraints));
}

#[test]
fn detector_accepts_a_run_that_is_not_the_first() {
    let mut grid = Grid::new(5, 1);
    grid.set(0, 3, F).unwrap();
    grid.set(0, 4, F).unwrap();
    let constraints = Constraints::new(
        5,
        1,
        vec![vec![1, 2]],
        vec![vec![1], vec![], vec![], vec![1], vec![1]],
    )
    .unwrap();
    assert_eq!(solutions_by_force(&grid, &constraints), vec![vec![cells("#XX##")]]);
    assert!(ContradictionDetector::new().is_valid(&grid, &constraints));
}

#[test]
fn detector_checks_one_by_one() {
    let detector = ContradictionDetector::new();
    assert!(detector.check_line_basic(&cells(".##.."), &[2]));
    assert!(!detector.check_line_basic(&cells(".###."), &[2]));
    assert!(detector.check_line_basic(&cells("#.#.."), &[3]));
    assert!(!detector.check_line_basic(&cells("#X#.."), &[2]));
    assert!(!detector.check_line_basic(&cells("##X.#"), &[1, 1]));
    assert!(detector.check_line_basic(&cells("#X.XX"), &[1, 1]));
    assert!(!detector.check_line_basic(&cells("#XXXX"), &[1, 1]));
    assert!(detector.check_line_basic(&cells("#X.X."), &[1, 1]));
    assert!(detector.check_line_impossible_blocks(&cells("..X.."), &[2]));
    assert!(!detector.check_line_impossible_blocks(&cells("..X.."), &[3]));
    assert!(detector.check_line_impossible_blocks(&cells("..X.."), &[]));
    assert!(!detector.check_line_impossible_blocks(&cells("..X#."), &[]));
    assert_eq!(detector.find_available_segments(&cells("..X#.X")), vec![(0, 2), (3, 2)]);
    assert_eq!(detector.count_filled_blocks(&cells("##X#.#")), vec![(0, 2), (3, 1), (5, 1)]);
}

#[test]
fn hypothesis_outside_the_grid_is_refused() {
    let grid = Grid::new(3, 1);
    let constraints = Constraints::new(3, 1, vec![vec![1]], vec![vec![], vec![1], vec![]]).unwrap();
    let mut detector = ContradictionDetector::new();
    assert!(!detector.test_hypothesis(&grid, &constraints, 1, 0, F));
    assert!(!detector.test_hypothesis(&grid, &constraints, 0, 3, F));
    assert!(detector.test_hypothesis(&grid, &constraints, 0, 1, F));
    assert!(!detector.test_hypothesis(&grid, &constraints, 0, 0, F));
    assert!(detector.test_hypothesis(&grid, &constraints, 0, 0, X));
    assert_eq!(grid.count_empty_cells(), 3);
}

#[test]
fn scenario_long_run_in_a_line_of_seven() {
    let columns = vec![vec![], vec![1], vec![1], vec![1], vec![1], vec![1], vec![]];
    let constraints = Constraints::new(7, 1, vec![vec![5]], columns).unwrap();
    let mut grid = Grid::new(7, 1);
    let mut log = Vec::new();
    let mut solver = NonogramSolver::new();
    solver.solve_row(&mut grid, &constraints, 0, &mut log).unwrap();
    assert_eq!(
        log,
        vec![
            Deduction { row: 0, col: 2, state: F },
            Deduction { row: 0, col: 3, state: F },
            Deduction { row: 0, col: 4, state: F },
        ]
    );
    assert_eq!(show(&grid), vec!["..###.."]);
    solver.solve(&mut grid, &constraints).unwrap();
    assert_eq!(show(&grid), vec!["X#####X"]);
}

#[test]
fn scenario_filled_cell_next_to_the_edge() {
    let constraints =
        Constraints::new(5, 1, vec![vec![3]], vec![vec![1], vec![1], vec![1], vec![], vec![]]).unwrap();
    let mut grid = grid_of(&[".#..."]);
    let crossed = CrossAnalyzer::new().analyze(&grid, &constraints).unwrap();
    assert!(crossed.contains(&Deduction { row: 0, col: 0, state: F }));
    assert!(crossed.contains(&Deduction { row: 0, col: 2, state: F }));
    assert!(crossed.contains(&Deduction { row: 0, col: 3, state: X }));
    let mut log = AdvancedSolver::new().solve(&mut grid, &constraints).unwrap();
    log.sort_by_key(|d| (d.row, d.col));
    assert_eq!(
        log,
        vec![
            Deduction { row: 0, col: 0, state: F },
            Deduction { row: 0, col: 2, state: F },
            Deduction { row: 0, col: 3, state: X },
            Deduction { row: 0, col: 4, state: X },
        ]
    );
    assert_eq!(show(&grid), vec!["###XX"]);
}

#[test]
fn scenario_two_runs_where_one_is_expected() {
    let constraints =
        Constraints::new(5, 1, vec![vec![2]], vec![vec![1], vec![], vec![1], vec![], vec![]]).unwrap();
    let grid = grid_of(&["#X#.."]);
    assert!(!ContradictionDetector::new().is_valid(&grid, &constraints));
}

#[test]
fn scenario_line_without_runs() {
    let constraints = Constraints::new(5, 1, vec![vec![]], vec![vec![]; 5]).unwrap();
    let mut grid = Grid::new(5, 1);
    let log = NonogramSolver::new().solve(&mut grid, &constraints).unwrap();
    assert_eq!(show(&grid), vec!["XXXXX"]);
    assert_eq!(log.len(), 5);
    assert!(log.iter().all(|d| d.state == X));
}

#[test]
fn scenario_plus_sign() {
    let lines = vec![vec![1], vec![3], vec![1]];
    let constraints = Constraints::new(3, 3, lines.clone(), lines).unwrap();
    let config = AdvancedSolverConfig {
        use_cross_analysis: true,
        use_advanced_heuristics: false,
        max_iterations: 100,
        verbose: false,
    };
    let mut grid = Grid::new(3, 3);
    AdvancedSolver::with_config(config).solve(&mut grid, &constraints).unwrap();
    assert_eq!(show(&grid), vec!["X#X", "###", "X#X"]);
    assert_eq!(grid.count_empty_cells(), 0);
    assert_eq!(solutions_by_force(&Grid::new(3, 3), &constraints).len(), 1);
}

#[test]
fn grid_without_run_lengths_for_a_line_is_refused() {
    let constraints = Constraints::new(2, 1, vec![vec![1]], vec![vec![1], vec![]]).unwrap();
    let mut tall = Grid::new(2, 2);
    assert_eq!(
        NonogramSolver::new().solve(&mut tall, &constraints),
        Err(SolveError::MissingRowConstraint { row: 1 })
    );
    assert_eq!(show(&tall), vec!["..", ".."]);
    let mut wide = Grid::new(3, 1);
    assert_eq!(
        NonogramSolver::new().solve(&mut wide, &constraints),
        Err(SolveError::MissingColumnConstraint { col: 2 })
    );
    assert_eq!(
        ParallelSolver::new().solve(&mut Grid::new(3, 1), &constraints),
        Err(SolveError::MissingColumnConstraint { col: 2 })
    );
    assert_eq!(
        CrossAnalyzer::new().analyze(&Grid::new(2, 2), &constraints),
        Err(SolveError::MissingRowConstraint { row: 1 })
    );
    assert_eq!(
        AdvancedHeuristics::new().apply(&Grid::new(3, 1), &constraints),
        Err(SolveError::MissingColumnConstraint { col: 2 })
    );
    assert_eq!(
        OptimizedBacktrackingSolver::new().apply_hidden_singles(&mut Grid::new(2, 2), &constraints),
        Err(SolveError::MissingRowConstraint { row: 1 })
    );
}

#[test]
fn lines_outside_the_grid_are_refused() {
    let grid = Grid::new(3, 2);
    let analyzer = CrossAnalyzer::new();
    assert_eq!(
        analyzer.overlap_analysis_row(&grid, 2, &[1]),
        Err(SolveError::RowOutOfBounds { row: 2 })
    );
    assert_eq!(
        analyzer.edge_forcing_row(&grid, 5, &[1]),
        Err(SolveError::RowOutOfBounds { row: 5 })
    );
    assert_eq!(
        analyzer.overlap_analysis_column(&grid, 3, &[1]),
        Err(SolveError::ColumnOutOfBounds { col: 3 })
    );
    assert_eq!(
        analyzer.edge_forcing_column(&grid, 3, &[1]),
        Err(SolveError::ColumnOutOfBounds { col: 3 })
    );
    assert_eq!(analyzer.overlap_analysis_column(&grid, 1, &[2]).unwrap().len(), 2);
}

#[test]
fn edge_forcing_at_both_ends() {
    let analyzer = CrossAnalyzer::new();
    let row = |text: &str, constraint: &[usize]| -> Vec<(usize, CellState)> {
        let grid = grid_of(&[text]);
        analyzer
            .edge_forcing_row(&grid, 0, constraint)
            .unwrap()
            .iter()
            .map(|d| (d.col, d.state))
            .collect()
    };
    assert_eq!(row(".#....", &[3, 1]), vec![(0, F), (2, F), (3, X)]);
    assert_eq!(row("...#..", &[3, 1]), vec![]);
    assert_eq!(row("....#.", &[1, 2]), vec![(5, F), (3, X)]);
    assert_eq!(row("#....#", &[2, 2]), vec![(1, F), (2, X), (4, F), (3, X)]);
    assert_eq!(row("......", &[2, 2]), vec![]);
    assert_eq!(row(".#.", &[3]), vec![(0, F), (2, F), (0, F), (2, F)]);
    let grid = grid_of(&[".", "#", ".", "."]);
    let column: Vec<(usize, CellState)> = analyzer
        .edge_forcing_column(&grid, 0, &[2])
        .unwrap()
        .iter()
        .map(|d| (d.row, d.state))
        .collect();
    assert_eq!(column, vec![(0, F), (2, X)]);
}

#[test]
fn analysis_keeps_the_first_deduction_on_a_cell_and_sorts_by_cell() {
    // Overlap fills (0,1); edge forcing from the filled cell (0,0) would cross it.
    let constraints = Constraints::new(3, 2, vec![vec![1, 1], vec![2]], vec![vec![]; 3]).unwrap();
    let grid = grid_of(&["#..", "..."]);
    let found = CrossAnalyzer::new().analyze(&grid, &constraints).unwrap();
    assert_eq!(
        found,
        vec![
            Deduction { row: 0, col: 1, state: X },
            Deduction { row: 0, col: 2, state: F },
            Deduction { row: 1, col: 1, state: F },
        ]
    );
}

#[test]
fn heuristics_one_by_one() {
    let heuristics = AdvancedHeuristics::new();
    let cols = |found: Vec<Deduction>| -> Vec<(usize, CellState)> {
        found.iter().map(|d| (d.col, d.state)).collect()
    };
    // a run that may be either end of its run is left alone
    assert_eq!(cols(heuristics.glue_method_line(0, &cells("..##..."), &[3], true)), vec![]);
    assert_eq!(cols(heuristics.glue_method_line(0, &cells("..#..."), &[3], true)), vec![]);
    // a run against a crossed cell is stretched away from it
    assert_eq!(
        cols(heuristics.glue_method_line(0, &cells(".X#..."), &[3], true)),
        vec![(3, F), (4, F)]
    );
    assert_eq!(
        cols(heuristics.glue_method_line(0, &cells("...#X."), &[3], true)),
        vec![(1, F), (2, F)]
    );
    // ... but only to the length of the shortest run
    assert_eq!(cols(heuristics.glue_method_line(0, &cells("#....."), &[3, 2], true)), vec![(1, F)]);
    assert_eq!(cols(heuristics.glue_method_line(0, &cells("##X..."), &[3], true)), vec![]);
    let column = heuristics.glue_method_line(4, &cells(".##"), &[3], false);
    assert_eq!(column, vec![Deduction { row: 0, col: 4, state: F }]);
    // a stretch without a filled cell may hold no run
    assert_eq!(cols(heuristics.mercury_method_line(0, &cells("......."), &[5], true)), vec![]);
    assert_eq!(
        cols(heuristics.mercury_method_line(0, &cells("..#...."), &[5], true)),
        vec![(3, F), (4, F)]
    );
    // the places of the run are taken from the crossed cells, not from the ends of the line
    assert_eq!(cols(heuristics.mercury_method_line(0, &cells("X.#..X."), &[3], true)), vec![(3, F)]);
    assert_eq!(cols(heuristics.mercury_method_line(0, &cells("X..#..."), &[3], true)), vec![]);
    assert_eq!(cols(heuristics.mercury_method_line(0, &cells("..."), &[5], true)), vec![]);
    assert_eq!(cols(heuristics.mercury_method_line(0, &cells("..."), &[], true)), vec![]);

    let constraints = Constraints::new(5, 1, vec![vec![3]], vec![vec![]; 5]).unwrap();
    let joined = heuristics.joining_splitting(&grid_of(&["#.#.."]), &constraints).unwrap();
    assert_eq!(joined, vec![Deduction { row: 0, col: 1, state: F }]);
    let apart = heuristics.joining_splitting(&grid_of(&["#..#."]), &constraints).unwrap();
    assert!(apart.iter().all(|d| d.row != 0 || d.col >= 5));
    let constraints = Constraints::new(5, 1, vec![vec![2, 1]], vec![vec![]; 5]).unwrap();
    let punctured = heuristics.puncturing(&grid_of(&["##.#."]), &constraints).unwrap();
    assert!(punctured.contains(&Deduction { row: 0, col: 2, state: X }));
    assert!(punctured.contains(&Deduction { row: 0, col: 4, state: X }));
    let ones = Constraints::new(5, 1, vec![vec![2, 1]], vec![vec![1]; 5]).unwrap();
    let not_yet = heuristics.puncturing(&grid_of(&["#..#."]), &ones).unwrap();
    assert_eq!(not_yet, vec![]);
    assert!(heuristics.glue_method(&grid_of(&["....."]), &constraints).unwrap().is_empty());
    assert!(heuristics.mercury_method(&grid_of(&["....."]), &constraints).unwrap().is_empty());
}

#[test]
fn search_limits_and_failures() {
    let lines = vec![vec![1], vec![1]];
    let constraints = Constraints::new(2, 2, lines.clone(), lines).unwrap();

    let mut solver =
        BacktrackingSolver::with_config(BacktrackingConfig { max_depth: 0, max_states: 10, verbose: false });
    let mut log = Vec::new();
    let mut grid = Grid::new(2, 2);
    assert_eq!(solver.backtrack(&mut grid, &constraints, 0, &mut log), Err(SearchFailure::DepthLimit));
    assert_eq!(solver.states_explored(), 0);

    let mut solver =
        BacktrackingSolver::with_config(BacktrackingConfig { max_depth: 5, max_states: 0, verbose: false });
    assert_eq!(solver.backtrack(&mut grid, &constraints, 0, &mut log), Err(SearchFailure::StateLimit));

    let mut solver = BacktrackingSolver::new();
    assert_eq!(solver.backtrack(&mut grid, &constraints, 0, &mut log), Ok(()));
    assert_eq!(grid.count_empty_cells(), 0);
    assert_eq!(log.len(), 4);
    let mut again = Grid::new(2, 2);
    assert_eq!(
        solver.backtrack(&mut again, &constraints, 0, &mut Vec::new()),
        Err(SearchFailure::AlreadyVisited)
    );

    let broken = Constraints::new(2, 2, vec![vec![2], vec![2]], vec![vec![1], vec![1]]).unwrap();
    let mut solver = BacktrackingSolver::new();
    assert_eq!(
        solver.backtrack(&mut Grid::new(2, 2), &broken, 0, &mut Vec::new()),
        Err(SearchFailure::Solver(SolveError::InfeasibleLine))
    );
}

#[test]
fn search_decides_a_puzzle_that_the_solvers_leave_open() {
    // Two solutions: the solvers decide nothing, the search takes the first.
    let lines = vec![vec![1], vec![1]];
    let constraints = Constraints::new(2, 2, lines.clone(), lines).unwrap();
    let mut by_lines = Grid::new(2, 2);
    assert_eq!(NonogramSolver::new().solve(&mut by_lines, &constraints), Ok(Vec::new()));
    assert_eq!(solutions_by_force(&Grid::new(2, 2), &constraints).len(), 2);

    let mut grid = Grid::new(2, 2);
    let mut solver = BacktrackingSolver::new();
    let log = solver.solve(&mut grid, &constraints).unwrap();
    assert_eq!(grid.count_empty_cells(), 0);
    let solutions = solutions_by_force(&Grid::new(2, 2), &constraints);
    let rows: Vec<Vec<CellState>> = (0..2).map(|r| grid.get_row(r).unwrap()).collect();
    assert!(solutions.contains(&rows));
    assert_eq!(log.len(), 4);
    assert!(log.iter().all(|d| grid.get(d.row, d.col) == Some(d.state)));
    assert!(solver.states_explored() >= 1);

    let mut grid = Grid::new(2, 2);
    let mut solver = OptimizedBacktrackingSolver::new();
    let log = solver.solve(&mut grid, &constraints).unwrap();
    assert_eq!(grid.count_empty_cells(), 0);
    let rows: Vec<Vec<CellState>> = (0..2).map(|r| grid.get_row(r).unwrap()).collect();
    assert!(solutions.contains(&rows));
    assert_eq!(log, solver.collect_all_deductions(&Grid::new(2, 2), &grid));
    assert_eq!(log.len(), 4);
}

#[test]
fn search_in_the_grid_limits_and_failures() {
    let lines = vec![vec![1], vec![1]];
    let constraints = Constraints::new(2, 2, lines.clone(), lines).unwrap();
    let config = |max_depth, max_states, propagate| OptimizedBacktrackingConfig {
        max_depth,
        max_states,
        use_constraint_propagation: propagate,
        use_naked_singles: true,
        use_hidden_singles: true,
        verbose: false,
    };
    let mut grid = Grid::new(2, 2);
    let mut solver = OptimizedBacktrackingSolver::with_config(config(0, 10, true));
    assert_eq!(solver.backtrack(&mut grid, &constraints, 0), Err(SearchFailure::DepthLimit));
    let mut solver = OptimizedBacktrackingSolver::with_config(config(5, 0, true));
    assert_eq!(solver.backtrack(&mut grid, &constraints, 0), Err(SearchFailure::StateLimit));
    let mut solver = OptimizedBacktrackingSolver::with_config(config(1, 10, true));
    assert_eq!(solver.backtrack(&mut grid, &constraints, 0), Err(SearchFailure::NoSolution));
    assert_eq!(grid.count_empty_cells(), 4);
    assert_eq!(solver.backtrack(&mut grid, &constraints, 0), Err(SearchFailure::AlreadyVisited));

    // An undecided cell far from every edge, in lines without runs and without filled cells,
    // has a score of zero.
    let empty = Constraints::new(21, 21, vec![vec![]; 21], vec![vec![]; 21]).unwrap();
    let mut grid = Grid::new(21, 21);
    for r in 0..21 {
        for c in 0..21 {
            if (r, c) != (10, 10) {
                grid.set(r, c, X).unwrap();
            }
        }
    }
    let mut solver = OptimizedBacktrackingSolver::with_config(config(5, 10, false));
    assert_eq!(solver.calculate_cell_score(&grid, &empty, 10, 10), 0);
    assert_eq!(solver.calculate_cell_score(&grid, &empty, 0, 0), 20);
    assert_eq!(solver.choose_best_cell_mrv_plus(&grid, &empty), Err(SearchFailure::NoCandidate));
    assert_eq!(solver.backtrack(&mut grid, &empty, 0), Err(SearchFailure::NoCandidate));
}

#[test]
fn cell_scores() {
    let constraints = Constraints::new(
        3,
        3,
        vec![vec![1, 1], vec![3], vec![1]],
        vec![vec![2], vec![1], vec![1, 1]],
    )
    .unwrap();
    let grid = grid_of(&["#..", "##.", "..."]);
    let plain = BacktrackingSolver::new();
    // one filled cell in the row, two in the column, two runs in the row, one in the column
    assert_eq!(plain.calculate_cell_score(&grid, &constraints, 0, 0), 1 + 2 + 2 * 2 + 1 * 2);
    assert_eq!(plain.calculate_cell_score(&grid, &constraints, 2, 2), 0 + 0 + 1 * 2 + 2 * 2);
    assert_eq!(plain.calculate_cell_score(&grid, &constraints, 0, 1), 1 + 1 + 2 * 2 + 1 * 2);
    assert_eq!(plain.calculate_cell_score(&grid, &constraints, 0, 2), 1 + 0 + 2 * 2 + 2 * 2);
    assert_eq!(plain.choose_best_cell(&grid, &constraints), Some((0, 2)));
    let weighted = OptimizedBacktrackingSolver::new();
    assert_eq!(
        weighted.calculate_cell_score(&grid, &constraints, 1, 2),
        2 * 10 + 0 * 10 + (1 * 5 + 3) + (2 * 5 + 2) + (10 - 1) * 2
    );
    assert_eq!(weighted.choose_best_cell_mrv_plus(&grid, &constraints), Ok((1, 2)));
}

#[test]
fn single_cell_and_single_place_deductions() {
    let constraints =
        Constraints::new(4, 1, vec![vec![3]], vec![vec![], vec![1], vec![1], vec![1]]).unwrap();
    let mut solver = OptimizedBacktrackingSolver::new();
    let mut grid = grid_of(&["X..."]);
    assert!(solver.can_place_block(&grid, 0, 1, 3, true));
    assert!(!solver.can_place_block(&grid, 0, 0, 3, true));
    assert!(!solver.can_place_block(&grid, 0, 2, 3, true));
    assert!(solver.can_place_block(&grid, 0, 1, 1, false));
    assert!(!solver.can_place_block(&grid, 0, 0, 1, false));
    assert!(!solver.can_place_block(&grid, 0, 1, 2, false));
    solver.apply_hidden_singles(&mut grid, &constraints).unwrap();
    assert_eq!(show(&grid), vec!["X###"]);

    let mut grid = Grid::new(4, 1);
    solver.apply_naked_singles(&mut grid, &constraints);
    assert_eq!(show(&grid), vec!["X###"]);
}

#[test]
fn ultimate_solver_phases() {
    let lines = vec![vec![1], vec![1]];
    let constraints = Constraints::new(2, 2, lines.clone(), lines).unwrap();
    let config = UltimateSolverConfig { use_backtracking: false, ..UltimateSolverConfig::default() };
    let mut open = Grid::new(2, 2);
    let log = UltimateSolver::with_config(config).solve(&mut open, &constraints).unwrap();
    assert_eq!(open.count_empty_cells(), 4);
    assert!(log.is_empty());

    let mut closed = Grid::new(2, 2);
    let mut solver = UltimateSolver::new();
    assert_eq!(solver.config().backtracking_depth, 10);
    let log = solver.solve(&mut closed, &constraints).unwrap();
    assert_eq!(closed.count_empty_cells(), 0);
    assert_eq!(log.len(), 4);
}

#[test]
fn sweep_limit_is_a_fault_even_where_the_last_sweep_finds_nothing() {
    let lines = vec![vec![1], vec![3], vec![1]];
    let constraints = Constraints::new(3, 3, lines.clone(), lines).unwrap();
    // the first sweep decides every cell, the second finds nothing
    let mut grid = Grid::new(3, 3);
    assert_eq!(
        NonogramSolver::new().solve_within(&mut grid, &constraints, 1),
        Err(SolveError::IterationLimit)
    );
    assert_eq!(show(&grid), vec!["X#X", "###", "X#X"]);
    let mut grid = Grid::new(3, 3);
    assert_eq!(
        NonogramSolver::new().solve_within(&mut grid, &constraints, 2),
        Err(SolveError::IterationLimit)
    );
    let mut grid = Grid::new(3, 3);
    let log = NonogramSolver::new().solve_within(&mut grid, &constraints, 3).unwrap();
    assert_eq!(log.len(), 9);
    let mut grid = Grid::new(3, 3);
    assert_eq!(
        NonogramSolver::new().solve_within(&mut grid, &constraints, 0),
        Err(SolveError::IterationLimit)
    );
    assert_eq!(grid.count_empty_cells(), 9);
}

#[test]
fn solvers_can_forget_their_lines() {
    let lines = vec![vec![1], vec![3], vec![1]];
    let constraints = Constraints::new(3, 3, lines.clone(), lines).unwrap();
    let mut solver = NonogramSolver::default();
    let mut grid = Grid::new(3, 3);
    let first = solver.solve(&mut grid, &constraints).unwrap();
    solver.clear_cache();
    let mut grid = Grid::new(3, 3);
    assert_eq!(solver.solve(&mut grid, &constraints).unwrap(), first);
    let mut advanced = AdvancedSolver::new();
    let mut grid = Grid::new(3, 3);
    advanced.solve(&mut grid, &constraints).unwrap();
    advanced.clear_cache();
    assert!(advanced.config().use_cross_analysis);
    assert_eq!(advanced.config().max_iterations, 100);
}

#[test]
fn lines_outside_the_grid_are_a_fault_of_line_solving() {
    let constraints = Constraints::new(2, 3, vec![vec![1]; 3], vec![vec![1], vec![2]]).unwrap();
    let mut grid = Grid::new(2, 2);
    let mut log = Vec::new();
    let mut solver = NonogramSolver::new();
    assert_eq!(
        solver.solve_row(&mut grid, &constraints, 2, &mut log),
        Err(SolveError::RowOutOfBounds { row: 2 })
    );
    assert_eq!(
        solver.solve_row(&mut grid, &constraints, 3, &mut log),
        Err(SolveError::MissingRowConstraint { row: 3 })
    );
    let mut small = Grid::new(1, 2);
    assert_eq!(
        solver.solve_column(&mut small, &constraints, 1, &mut log),
        Err(SolveError::ColumnOutOfBounds { col: 1 })
    );
    assert_eq!(
        solver.solve_column(&mut small, &constraints, 2, &mut log),
        Err(SolveError::MissingColumnConstraint { col: 2 })
    );
    assert!(log.is_empty());
    assert_eq!(solver.solve_column(&mut grid, &constraints, 1, &mut log), Ok(()));
    assert_eq!(
        log,
        vec![Deduction { row: 0, col: 1, state: F }, Deduction { row: 1, col: 1, state: F }]
    );
}

#[test]
fn scores_and_places_outside_the_grid() {
    let constraints = Constraints::new(2, 1, vec![vec![1]], vec![vec![1], vec![]]).unwrap();
    let grid = grid_of(&["#X"]);
    let plain = BacktrackingSolver::new();
    // the row with its filled cell and its run; the column with its filled cell and its run
    assert_eq!(plain.calculate_cell_score(&grid, &constraints, 0, 5), 1 + 2);
    assert_eq!(plain.calculate_cell_score(&grid, &constraints, 5, 0), 1 + 2);
    assert_eq!(plain.calculate_cell_score(&grid, &constraints, 5, 5), 0);
    let search = OptimizedBacktrackingSolver::new();
    assert!(search.can_place_block(&grid, 3, 0, 2, true));
    assert!(!search.can_place_block(&grid, 3, 1, 2, true));
    assert!(!search.can_place_block(&grid, 0, 0, 2, true));
    assert!(search.can_place_block(&grid, 0, 7, 1, false));
    assert!(!search.can_place_block(&grid, 0, 7, 2, false));
}

fn on_row(found: Vec<Deduction>) -> Vec<(usize, CellState)> {
    found.iter().filter(|d| d.row == 0).map(|d| (d.col, d.state)).collect()
}

fn row_grid(line: &[CellState]) -> Grid {
    let mut grid = Grid::new(line.len(), 1);
    grid.set_row(0, line.to_vec()).unwrap();
    grid
}

#[test]
fn overlap_glue_mercury_and_punctuation_agree_with_every_completion() {
    let heuristics = AdvancedHeuristics::new();
    let analyzer = CrossAnalyzer::new();
    for line in all_lines(5) {
        for constraint in LINE_CONSTRAINTS {
            let all = completions_by_force(&line, constraint);
            let grid = row_grid(&line);
            let overlap = on_row(analyzer.overlap_analysis_row(&grid, 0, constraint).unwrap());
            let mercury = on_row(heuristics.mercury_method_line(0, &line, constraint, true));
            let glue = on_row(heuristics.glue_method_line(0, &line, constraint, true));
            let constraints =
                Constraints::new(5, 1, vec![constraint.to_vec()], vec![vec![1]; 5]).unwrap();
            let punctured = on_row(heuristics.puncturing(&grid, &constraints).unwrap());
            let sound = overlap.iter().chain(mercury.iter()).chain(glue.iter()).chain(punctured.iter());
            for (col, state) in sound {
                assert_eq!(line[*col], E);
                for completion in &all {
                    assert_eq!(completion[*col], *state);
                }
            }
        }
    }
}

/// Edge forcing as a rule of thumb: a filled cell within the first run's length of the
/// start pulls the first run to the start, and likewise at the end.
fn edge_model(line: &[CellState], constraint: &[usize]) -> Vec<(usize, CellState)> {
    let n = line.len();
    let mut found = Vec::new();
    if constraint.is_empty() {
        return found;
    }
    let first = constraint[0].min(n);
    if line[..first].contains(&F) {
        found.extend((0..first).filter(|&i| line[i] == E).map(|i| (i, F)));
        if constraint[0] < n && line[constraint[0]] == E {
            found.push((constraint[0], X));
        }
    }
    let last = *constraint.last().unwrap();
    let from = n.saturating_sub(last);
    if line[from..].contains(&F) {
        found.extend((from..n).filter(|&i| line[i] == E).map(|i| (i, F)));
        if last < n && line[from - 1] == E {
            found.push((from - 1, X));
        }
    }
    found
}

/// Glue by its rule: a run of filled cells shorter than the shortest run length is
/// stretched to that length away from a wall that it stands against.
fn glue_model(line: &[CellState], constraint: &[usize]) -> Vec<(usize, CellState)> {
    let n = line.len();
    let size = constraint.iter().copied().min().unwrap_or(0);
    let starts: Vec<usize> = (0..n).filter(|&i| line[i] == F && (i == 0 || line[i - 1] != F)).collect();
    let mut found = Vec::new();
    for start in starts {
        let end = (start..n).find(|&i| line[i] != F).unwrap_or(n);
        if end - start < size {
            if (end == n || line[end] == X) && end >= size {
                found.extend((end - size..start).filter(|&i| line[i] == E).map(|i| (i, F)));
            }
            if (start == 0 || line[start - 1] == X) && start + size <= n {
                found.extend((end..start + size).filter(|&i| line[i] == E).map(|i| (i, F)));
            }
        }
    }
    found
}

/// Mercury by its rule: in a stretch without a crossed cell that holds a filled cell, the
/// cells that the shortest run covers wherever it lies in the stretch are filled.
fn mercury_model(line: &[CellState], constraint: &[usize]) -> Vec<(usize, CellState)> {
    let n = line.len();
    let size = constraint.iter().copied().min().unwrap_or(0);
    let starts: Vec<usize> = (0..n).filter(|&i| line[i] != X && (i == 0 || line[i - 1] == X)).collect();
    let mut found = Vec::new();
    for start in starts {
        let end = (start..n).find(|&i| line[i] == X).unwrap_or(n);
        if size <= end - start && line[start..end].contains(&F) {
            found.extend((end - size..start + size).filter(|&i| line[i] == E).map(|i| (i, F)));
        }
    }
    found
}

/// Joining as a rule of thumb: with more runs than run lengths, an undecided cell that
/// alone parts two runs is filled.
fn joining_model(line: &[CellState], constraint: &[usize]) -> Vec<(usize, CellState)> {
    let n = line.len();
    let runs = (0..n).filter(|&i| line[i] == F && (i == 0 || line[i - 1] != F)).count();
    if runs <= constraint.len() {
        return Vec::new();
    }
    (1..n.saturating_sub(1))
        .filter(|&i| line[i] == E && line[i - 1] == F && line[i + 1] == F)
        .map(|i| (i, F))
        .collect()
}

#[test]
fn edge_forcing_glue_mercury_and_joining_follow_their_rules() {
    let heuristics = AdvancedHeuristics::new();
    let analyzer = CrossAnalyzer::new();
    for line in all_lines(6) {
        for constraint in LINE_CONSTRAINTS {
            let grid = row_grid(&line);
            assert_eq!(
                on_row(analyzer.edge_forcing_row(&grid, 0, constraint).unwrap()),
                edge_model(&line, constraint)
            );
            assert_eq!(
                on_row(heuristics.glue_method_line(0, &line, constraint, true)),
                glue_model(&line, constraint)
            );
            assert_eq!(
                on_row(heuristics.mercury_method_line(0, &line, constraint, true)),
                mercury_model(&line, constraint)
            );
            let constraints =
                Constraints::new(6, 1, vec![constraint.to_vec()], vec![vec![]; 6]).unwrap();
            assert_eq!(
                on_row(heuristics.joining_splitting(&grid, &constraints).unwrap()),
                joining_model(&line, constraint)
            );
        }
    }
}

#[test]
fn edge_forcing_may_fill_a_cell_that_a_completion_crosses() {
    let line = cells(".#...");
    let found = edge_model(&line, &[3]);
    assert!(found.contains(&(0, F)));
    let all = completions_by_force(&line, &[3]);
    assert!(all.iter().any(|c| c[0] == X));
}

/// What holds of the log and the grid of a solver that ends without a fault.
fn check_work(name: &str, start: &Grid, grid: &Grid, constraints: &Constraints, log: &[Deduction]) {
    for (i, d) in log.iter().enumerate() {
        assert_eq!(start.get(d.row, d.col), Some(E), "{}", name);
        assert_eq!(grid.get(d.row, d.col), Some(d.state), "{}", name);
        assert!(log[..i].iter().all(|e| (e.row, e.col) != (d.row, d.col)), "{}", name);
    }
    for r in 0..grid.height() {
        for c in 0..grid.width() {
            if grid.get(r, c) != start.get(r, c) {
                assert!(log.iter().any(|d| (d.row, d.col) == (r, c)), "{}", name);
            }
        }
    }
    if grid.count_empty_cells() == 0 {
        let rows: Vec<Vec<CellState>> =
            (0..grid.height()).map(|r| grid.get_row(r).unwrap()).collect();
        assert!(solutions_by_force(start, constraints).contains(&rows), "{}", name);
    }
}

#[test]
fn every_solver_logs_a_cell_once_and_returns_only_solutions_as_complete() {
    for constraints in small_puzzles() {
        for first in [E, F, X] {
            let mut start = Grid::new(3, 3);
            start.set(1, 1, first).unwrap();
            let mut grid = start.clone_grid();
            if let Ok(log) = NonogramSolver::new().solve(&mut grid, &constraints) {
                check_work("lines", &start, &grid, &constraints, &log);
            }
            let mut grid = start.clone_grid();
            if let Ok(log) = ParallelSolver::new().solve(&mut grid, &constraints) {
                check_work("parallel", &start, &grid, &constraints, &log);
            }
            let mut grid = start.clone_grid();
            if let Ok(log) = AdvancedSolver::new().solve(&mut grid, &constraints) {
                check_work("advanced", &start, &grid, &constraints, &log);
            }
            let mut grid = start.clone_grid();
            if let Ok(log) = BacktrackingSolver::new().solve(&mut grid, &constraints) {
                check_work("search", &start, &grid, &constraints, &log);
            }
            let mut grid = start.clone_grid();
            if let Ok(log) = OptimizedBacktrackingSolver::new().solve(&mut grid, &constraints) {
                check_work("search in the grid", &start, &grid, &constraints, &log);
            }
            let mut grid = start.clone_grid();
            if let Ok(log) = UltimateSolver::new().solve(&mut grid, &constraints) {
                check_work("all", &start, &grid, &constraints, &log);
            }
        }
    }
}

#[test]
fn a_fresh_search_solves_the_grid_of_four_cells() {
    let constraints =
        Constraints::new(2, 2, vec![vec![1], vec![1]], vec![vec![1], vec![1]]).unwrap();
    let mut grid = Grid::new(2, 2);
    let mut log = Vec::new();
    let mut solver = BacktrackingSolver::new();
    assert_eq!(solver.backtrack(&mut grid, &constraints, 0, &mut log), Ok(()));
    assert_eq!(log.len(), 4);
    assert!(log.iter().all(|d| grid.get(d.row, d.col) == Some(d.state)));
    assert_eq!(grid.count_empty_cells(), 0);
    for i in 0..2 {
        assert_eq!(grid.get_row(i).unwrap().iter().filter(|c| **c == F).count(), 1);
        assert_eq!(grid.get_column(i).unwrap().iter().filter(|c| **c == F).count(), 1);
    }
}

#[test]
fn detector_takes_a_run_of_no_cell_to_fit_anywhere() {
    let detector = ContradictionDetector::new();
    assert!(detector.check_line_impossible_blocks(&cells("XXX"), &[0]));
    assert!(detector.check_line_impossible_blocks(&cells("X.X"), &[0, 1]));
    assert!(!detector.check_line_impossible_blocks(&cells("X.X"), &[0, 2]));
}

#[test]
fn a_trial_that_fails_leaves_nothing_of_what_it_decided() {
    // one filled cell in every line of 3 by 3: line solving finds nothing, a trial decides
    // the cells of a row and a column and then runs into the limit on the depth
    let ones = vec![vec![1], vec![1], vec![1]];
    let constraints = Constraints::new(3, 3, ones.clone(), ones).unwrap();
    let config = OptimizedBacktrackingConfig { max_depth: 2, ..OptimizedBacktrackingConfig::default() };
    let mut solver = OptimizedBacktrackingSolver::with_config(config);
    let mut grid = Grid::new(3, 3);
    assert_eq!(solver.backtrack(&mut grid, &constraints, 0), Err(SearchFailure::NoSolution));
    assert_eq!(grid.count_empty_cells(), 9);
    assert!(solver.states_explored() >= 3);
}
